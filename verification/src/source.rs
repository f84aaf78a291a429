//! Where the command line gets its data, and what it asks for.
//!
//! The daemon when one is listening, the database directly when it is not.
use vstd::prelude::*;

use crate::access::{self, set_to};
use crate::bodies;
use crate::contacts::{self, Contact, ContactIndex, ContactView};
use crate::context::Context;
use crate::daemon::protocol::{
    Attachment, ChatsRequest, ContactsReply, ContactsRequest, ReadRequest, Request,
    ResolveRequest, ResolvedHandle, SearchRequest, SendRequest, WatchRequest,
};
use crate::daemon::send::{self, attachment_name};
use crate::db::Message;
use crate::fetch::FetchMessages;
use crate::people::PersonFilter;
use crate::queries;
use crate::sql::Stored;
use crate::text::{self, copied, decimal_of, digits_of};
use crate::{Error, ErrorView};

verus! {

/// Which conversations to list.
#[derive(Debug)]
pub struct ChatsQuery {
    pub query: Option<String>,
    pub limit: i64,
    pub unknown: bool,
    pub names: bool,
}

/// Which conversation to print.
#[derive(Debug)]
pub struct ReadQuery {
    pub chat: String,
    pub limit: i64,
    pub since: Option<String>,
    pub tapbacks: bool,
    pub names: bool,
    pub unknown: bool,
}

/// What to search for, and where.
#[derive(Debug)]
pub struct SearchQuery {
    pub query: String,
    pub chat: Option<String>,
    /// One person, across every conversation: their messages and mine.
    pub with: Option<String>,
    /// One person, across every conversation: only what they sent.
    pub from: Option<String>,
    pub limit: i64,
    pub since: Option<String>,
    pub unknown: bool,
    pub names: bool,
    /// How much of the conversation to show around each hit.
    pub context: Context,
}

/// Which messages to follow.
#[derive(Debug)]
pub struct WatchQuery {
    pub chat: Option<String>,
    pub tapbacks: bool,
    pub unknown: bool,
    pub names: bool,
    /// Poll frequency without a daemon, which has its own tick.
    pub interval: u64,
}

/// What to send, and to whom.
#[derive(Debug)]
pub struct SendQuery {
    pub chat: String,
    pub body: Option<String>,
    /// Bytes rather than a path: the daemon never reads a path a client named.
    pub file: Option<Attachment>,
    pub names: bool,
}

/// Which end answers.
#[derive(Debug, Clone, Copy, PartialEq, Eq, Structural)]
pub enum Kind {
    Daemon,
    Direct,
}

/// Where an attachment ended up.
#[derive(Debug, Clone)]
pub struct Saved {
    pub path: String,
    pub bytes: i64,
}

/// The database that was named, outright or by `MSG_DB`.
pub open spec fn named_database(db: Option<Seq<char>>, environment: Option<Seq<char>>) -> Option<
    Seq<char>,
> {
    match db {
        Some(path) => Some(path),
        None => access::made(environment),
    }
}

/// Whether a daemon may answer, and is worth looking for: no database was named.
pub fn may_ask_daemon(db: Option<&str>, environment: Option<&str>) -> (yes: bool)
    ensures
        yes == (named_database(text::maybe_str(db), text::maybe_str(environment)) is None),
{
    db.is_none() && set_to(environment).is_none()
}

/// The database that was named, and which end answers.
///
/// `--db` names a path, so it is answered locally and never sent to the daemon.
/// `MSG_DB` is `--db` by another name, so it steers the same way: otherwise
/// pointing it at a fixture while a daemon is listening would read the real
/// database instead.
pub fn open_source(db: Option<String>, environment: Option<&str>, listening: bool) -> (out: (
    Option<String>,
    Kind,
))
    ensures
        text::maybe(out.0) == named_database(text::maybe(db), text::maybe_str(environment)),
        out.1 == (if out.0 is None && listening {
            Kind::Daemon
        } else {
            Kind::Direct
        }),
{
    let named: Option<String> = match db {
        Some(path) => Some(path),
        None => match set_to(environment) {
            Some(path) => Some(path.to_owned()),
            None => None,
        },
    };
    let kind = if named.is_none() && listening {
        Kind::Daemon
    } else {
        Kind::Direct
    };
    (named, kind)
}

/// A named database never reaches the daemon, listening or not.
pub proof fn a_named_database_is_read_locally(
    db: Option<Seq<char>>,
    environment: Option<Seq<char>>,
)
    ensures
        db is Some ==> named_database(db, environment) is Some,
        environment is Some && environment->0.len() > 0 ==> named_database(db, environment) is Some,
{
}

/// A switch as a request carries it: absent unless it is on.
pub open spec fn on(switch: bool) -> Option<bool> {
    if switch {
        Some(true)
    } else {
        None
    }
}

/// A switch that is on by default, as a request carries it: absent unless it is
/// off.
pub open spec fn off(switch: bool) -> Option<bool> {
    if switch {
        None
    } else {
        Some(false)
    }
}

/// A width as a request carries it: absent unless there is one.
pub open spec fn width(n: i64) -> Option<i64> {
    if n > 0 {
        Some(n)
    } else {
        None
    }
}

/// A switch as a request carries it.
fn if_on(switch: bool) -> (out: Option<bool>)
    ensures
        out == on(switch),
{
    if switch {
        Some(true)
    } else {
        None
    }
}

/// A switch that is on by default, as a request carries it.
fn if_off(switch: bool) -> (out: Option<bool>)
    ensures
        out == off(switch),
{
    if switch {
        None
    } else {
        Some(false)
    }
}

/// A width as a request carries it.
fn if_wide(n: i64) -> (out: Option<i64>)
    ensures
        out == width(n),
{
    if n > 0 {
        Some(n)
    } else {
        None
    }
}

/// What the daemon is asked when conversations are listed.
pub fn chats_request(query: &ChatsQuery) -> (out: Request)
    ensures
        out == Request::Chats(
            (ChatsRequest {
                query: query.query,
                limit: Some(query.limit),
                unknown: on(query.unknown),
                names: off(query.names),
            }),
        ),
{
    Request::Chats(
        ChatsRequest {
            query: copied(&query.query),
            limit: Some(query.limit),
            unknown: if_on(query.unknown),
            names: if_off(query.names),
        },
    )
}

/// What the daemon is asked when a conversation is read.
pub fn read_request(query: &ReadQuery) -> (out: Request)
    ensures
        out == Request::Read(
            (ReadRequest {
                chat: query.chat,
                limit: Some(query.limit),
                since: query.since,
                tapbacks: on(query.tapbacks),
                names: off(query.names),
                unknown: on(query.unknown),
            }),
        ),
{
    Request::Read(
        ReadRequest {
            chat: query.chat.clone(),
            limit: Some(query.limit),
            since: copied(&query.since),
            tapbacks: if_on(query.tapbacks),
            names: if_off(query.names),
            unknown: if_on(query.unknown),
        },
    )
}

/// What the daemon is asked when messages are searched.
pub fn search_request(query: &SearchQuery) -> (out: Request)
    ensures
        out == Request::Search(
            (SearchRequest {
                query: query.query,
                before: width(query.context.before),
                after: width(query.context.after),
                chat: query.chat,
                with: query.with,
                from: query.from,
                limit: Some(query.limit),
                since: query.since,
                unknown: on(query.unknown),
                names: off(query.names),
            }),
        ),
{
    Request::Search(
        SearchRequest {
            query: query.query.clone(),
            before: if_wide(query.context.before),
            after: if_wide(query.context.after),
            chat: copied(&query.chat),
            with: copied(&query.with),
            from: copied(&query.from),
            limit: Some(query.limit),
            since: copied(&query.since),
            unknown: if_on(query.unknown),
            names: if_off(query.names),
        },
    )
}

/// What the daemon is asked when messages are followed.
pub fn watch_request(query: &WatchQuery) -> (out: Request)
    ensures
        out == Request::Watch(
            (WatchRequest {
                chat: query.chat,
                tapbacks: on(query.tapbacks),
                unknown: on(query.unknown),
                names: off(query.names),
            }),
        ),
{
    Request::Watch(
        WatchRequest {
            chat: copied(&query.chat),
            tapbacks: if_on(query.tapbacks),
            unknown: if_on(query.unknown),
            names: if_off(query.names),
        },
    )
}

/// What the daemon is asked when one conversation is named.
pub fn resolve_request(chat: &str, names: bool) -> (out: Request)
    ensures
        out matches Request::Resolve(ask) && ask.chat@ == chat@ && ask.names == off(names),
{
    Request::Resolve(ResolveRequest { chat: chat.to_owned(), names: if_off(names) })
}

/// What the daemon is asked when people are looked up.
pub fn contacts_request(handles: Vec<String>) -> (out: Request)
    ensures
        out == Request::Contacts((ContactsRequest { handles })),
{
    Request::Contacts(ContactsRequest { handles })
}

/// What the daemon is asked when something is sent, and a refusal without one.
///
/// Sending needs Automation, and a gate the sending process enforces on itself
/// is not a gate, so the only way to send is through a daemon macOS has been
/// told may drive Messages.
pub fn send_request(kind: Kind, query: SendQuery) -> (out: Result<Request, Error>)
    ensures
        kind == Kind::Daemon ==> out == Ok::<Request, Error>(
            Request::Send(
                (SendRequest {
                    chat: query.chat,
                    body: query.body,
                    file: query.file,
                    names: off(query.names),
                }),
            ),
        ),
        kind == Kind::Direct ==> (out matches Err(error) && error@ == ErrorView::Other(
            "sending needs the daemon, which holds the Automation permission.\nInstall it with `msg daemon install`."@,
        )),
{
    if kind == Kind::Direct {
        return Err(
            Error::other(
                "sending needs the daemon, which holds the Automation permission.\nInstall it with `msg daemon install`.",
            ),
        );
    }
    Ok(
        Request::Send(
            SendRequest {
                chat: query.chat,
                body: query.body,
                file: query.file,
                names: if_off(query.names),
            },
        ),
    )
}

/// Why the Automation permission cannot be asked about without a daemon.
pub fn automation_refused() -> (out: Error)
    ensures
        out@ == ErrorView::Other(
            "the Automation permission belongs to the daemon, which is not running.\nInstall it with `msg daemon install`."@,
        ),
{
    Error::other(
        "the Automation permission belongs to the daemon, which is not running.\nInstall it with `msg daemon install`.",
    )
}

/// What to say of a daemon that was listening and is not any more.
pub fn stopped_listening() -> (out: Error)
    ensures
        out@ == ErrorView::Other("msgd stopped listening; try `msg daemon status`"@),
{
    Error::other("msgd stopped listening; try `msg daemon status`")
}

/// A [`ResolvedHandle`], by its characters.
#[verifier::ext_equal]
pub struct ResolvedView {
    pub handle: Seq<char>,
    pub name: Option<Seq<char>>,
    pub filed_as: Option<Seq<char>>,
}

impl View for ResolvedHandle {
    type V = ResolvedView;

    open spec fn view(&self) -> ResolvedView {
        ResolvedView {
            handle: self.handle@,
            name: text::maybe(self.name),
            filed_as: text::maybe(self.filed_as),
        }
    }
}

/// A contact as a lookup answers with it.
pub open spec fn resolved(contact: ContactView) -> ResolvedView {
    ResolvedView {
        handle: contact.handle,
        name: Some(contact.name),
        filed_as: contact.filed_as,
    }
}

/// What a term is answered with: everyone it reaches, and the term itself
/// unresolved where it reaches nobody.
pub open spec fn answered(contacts: Seq<ContactView>, term: Seq<char>) -> Seq<ResolvedView> {
    let found = contacts::found(contacts, term);
    if found.len() == 0 {
        seq![ResolvedView { handle: term, name: None, filed_as: None }]
    } else {
        found.map_values(|contact: ContactView| resolved(contact))
    }
}

/// What terms are answered with, one after another.
pub open spec fn answered_each(contacts: Seq<ContactView>, terms: Seq<Seq<char>>) -> Seq<
    ResolvedView,
>
    decreases terms.len(),
{
    if terms.len() == 0 {
        Seq::empty()
    } else {
        answered_each(contacts, terms.drop_last()) + answered(contacts, terms.last())
    }
}

/// Rows of an answer, by their characters.
pub open spec fn resolved_views(rows: Seq<ResolvedHandle>) -> Seq<ResolvedView> {
    rows.map_values(|row: ResolvedHandle| row@)
}

/// Look people up.
pub fn contacts_reply(handles: &[String], index: &ContactIndex) -> (out: ContactsReply)
    ensures
        out.size == index@.contacts.len(),
        resolved_views(out.resolved@) == answered_each(
            index@.contacts,
            text::all_of(handles@),
        ),
{
    let ghost terms = text::all_of(handles@);
    let mut rows: Vec<ResolvedHandle> = Vec::new();
    assert(resolved_views(rows@) =~= answered_each(index@.contacts, terms.take(0)));
    for i in 0..handles.len()
        invariant
            terms == text::all_of(handles@),
            resolved_views(rows@) == answered_each(index@.contacts, terms.take(i as int)),
    {
        proof {
            assert(terms.take(i + 1).drop_last() =~= terms.take(i as int));
            assert(terms.take(i + 1).last() == handles@[i as int]@);
        }
        let term = &handles[i];
        let ghost before = resolved_views(rows@);
        let found: Vec<&Contact> = index.find(term.as_str());
        let ghost all = contacts::found(index@.contacts, term@);
        if found.len() == 0 {
            rows.push(ResolvedHandle { handle: term.clone(), name: None, filed_as: None });
            assert(resolved_views(rows@) =~= before + answered(index@.contacts, term@));
        } else {
            let ghost each = all.map_values(|contact: ContactView| resolved(contact));
            for j in 0..found.len()
                invariant
                    contacts::seen(found@) == all,
                    each == all.map_values(|contact: ContactView| resolved(contact)),
                    resolved_views(rows@) == before + each.take(j as int),
            {
                let contact = found[j];
                let ghost was = rows@;
                let row = ResolvedHandle {
                    handle: contact.handle.clone(),
                    name: Some(contact.name.clone()),
                    filed_as: copied(&contact.filed_as),
                };
                proof {
                    assert(contacts::seen(found@)[j as int] == contact@);
                    assert(row@ == each[j as int]);
                }
                rows.push(row);
                assert(resolved_views(rows@) =~= resolved_views(was).push(row@));
                assert(resolved_views(rows@) =~= before + each.take(j + 1));
            }
            assert(each.take(each.len() as int) =~= each);
        }
    }
    assert(terms.take(terms.len() as int) =~= terms);
    ContactsReply { size: index.len(), resolved: rows }
}

/// What an attachment is called that has no name of its own.
pub open spec fn unnamed(id: i64) -> Seq<char> {
    "attachment-"@ + text::decimal(id as int)
}

/// What an attachment is called.
pub open spec fn called(name: Option<Seq<char>>, id: i64) -> Seq<char> {
    match name {
        Some(name) => name,
        None => unnamed(id),
    }
}

/// What an attachment is called.
pub fn name_of(name: Option<&str>, id: i64) -> (out: String)
    ensures
        out@ == called(text::maybe_str(name), id),
{
    match name {
        Some(name) => name.to_owned(),
        None => {
            let mut out: String = "attachment-".to_owned();
            out.append(decimal_of(id).as_str());
            out
        },
    }
}

/// The file an attachment is written to while it is still arriving, so that an
/// interrupted transfer leaves nothing that looks like a whole file.
pub fn temporary_name(pid: u32, id: i64) -> (out: String)
    ensures
        out@ == ".msg-save-"@ + text::digits(pid as nat) + "-"@ + text::decimal(id as int),
{
    let mut out: String = ".msg-save-".to_owned();
    out.append(digits_of(pid as u64).as_str());
    out.append("-");
    out.append(decimal_of(id).as_str());
    out
}

/// The file an attachment ends up in, inside the directory it was asked into.
pub fn saved_name(name: Option<&str>, id: i64) -> (out: String)
    ensures
        out@ == send::safe_name(called(text::maybe_str(name), id)),
        out@.len() > 0,
        !out@.contains('/'),
        out@[0] != '.',
{
    let whole = name_of(name, id);
    proof {
        send::an_attachment_stays_in_its_directory(whole@);
    }
    attachment_name(whole.as_str())
}

/// Whether an attachment may take the place of what is there already.
pub fn may_place(destination: &str, taken: bool, force: bool) -> (out: Result<(), Error>)
    ensures
        out is Ok <==> !taken || force,
        out matches Err(error) ==> error@ == ErrorView::Other(
            destination@ + " already exists; pass --force to replace it"@,
        ),
{
    if taken && !force {
        let mut message: String = destination.to_owned();
        message.append(" already exists; pass --force to replace it");
        return Err(Error::Other(message));
    }
    Ok(())
}

/// The highest of a watermark and the rowids of messages.
pub open spec fn highest(watermark: i64, messages: Seq<Message>) -> i64
    decreases messages.len(),
{
    if messages.len() == 0 {
        watermark
    } else {
        let before = highest(watermark, messages.drop_last());
        if messages.last().rowid > before {
            messages.last().rowid
        } else {
            before
        }
    }
}

/// The watermark of one who has seen these messages too.
pub fn seen_upto(watermark: i64, messages: &[Message]) -> (out: i64)
    ensures
        out == highest(watermark, messages@),
{
    let mut out: i64 = watermark;
    for i in 0..messages.len()
        invariant
            out == highest(watermark, messages@.take(i as int)),
    {
        assert(messages@.take(i + 1).drop_last() =~= messages@.take(i as int));
        if messages[i].rowid > out {
            out = messages[i].rowid;
        }
    }
    assert(messages@.take(messages@.len() as int) =~= messages@);
    out
}

/// Following never goes back: a watermark is at least what it was, and no
/// message that was seen is above it.
pub proof fn a_watermark_only_climbs(watermark: i64, messages: Seq<Message>)
    ensures
        highest(watermark, messages) >= watermark,
        forall|i: int|
            0 <= i < messages.len() ==> (#[trigger] messages[i]).rowid <= highest(
                watermark,
                messages,
            ),
    decreases messages.len(),
{
    if messages.len() > 0 {
        a_watermark_only_climbs(watermark, messages.drop_last());
        assert forall|i: int| 0 <= i < messages.len() implies (#[trigger] messages[i]).rowid
            <= highest(watermark, messages) by {
            if i < messages.len() - 1 {
                assert(messages[i] == messages.drop_last()[i]);
            }
        }
    }
}

/// What a search asks for, once whose conversation, which person and since when
/// have been looked up.
pub fn search_options<'a>(
    query: &'a SearchQuery,
    chat_id: Option<i64>,
    person: Option<PersonFilter<'a>>,
    after_date: Option<i64>,
) -> (out: FetchMessages<'a>)
    ensures
        out.query is Some && (out.query->0)@ == query.query@,
        out == (FetchMessages {
            chat_id,
            after_date,
            after_rowid: None,
            before_rowid: None,
            query: out.query,
            person,
            limit: query.limit,
            include_tapbacks: false,
            include_filtered: query.unknown,
            oldest_first: false,
        }),
        forall|ours: Seq<i64>, row: Stored|
            #[trigger] queries::selects(out, ours, row) ==> {
                &&& row.kind == Some(0int)
                &&& bodies::in_body(row.text, row.archive, query.query@)
                &&& chat_id matches Some(chat) ==> row.chat_id == chat
                &&& chat_id is Some || query.unknown || row.filtered == Some(0int)
                &&& after_date matches Some(date) ==> row.date is Some && row.date->0 > date
            },
        forall|a: Stored, b: Stored|
            #[trigger] queries::comes_first(out, a, b) <==> a.date is Some && b.date is Some
                && a.date->0 > b.date->0,
{
    FetchMessages {
        query: Some(query.query.as_str()),
        chat_id,
        person,
        after_date,
        limit: query.limit,
        include_filtered: query.unknown,
        ..FetchMessages::default()
    }
}

/// Somebody looked up by their address, in whatever shape it is written, is answered
/// with the name they are known under and the one they are filed under; an address that
/// is nobody's is answered with itself and no name.
pub proof fn an_address_is_answered_with_a_name(contacts: Seq<ContactView>, term: Seq<char>)
    ensures
        contacts::held(contacts, term) matches Some(contact) ==> answered(contacts, term) == seq![
            ResolvedView {
                handle: contact.handle,
                name: Some(contact.name),
                filed_as: contact.filed_as,
            },
        ],
        contacts::found(contacts, term).len() == 0 ==> answered(contacts, term) == seq![
            ResolvedView { handle: term, name: None, filed_as: None },
        ],
        forall|i: int|
            0 <= i < contacts::found(contacts, term).len() ==> {
                let contact = #[trigger] contacts::found(contacts, term)[i];
                &&& i < answered(contacts, term).len()
                &&& answered(contacts, term)[i].handle == contact.handle
                &&& answered(contacts, term)[i].name == Some(contact.name)
                &&& answered(contacts, term)[i].filed_as == contact.filed_as
            },
{
    if let Some(contact) = contacts::held(contacts, term) {
        assert(answered(contacts, term) =~= seq![
            ResolvedView {
                handle: contact.handle,
                name: Some(contact.name),
                filed_as: contact.filed_as,
            },
        ]);
    }
}

/// Every term of a lookup is answered, in the order they were asked.
pub proof fn every_term_is_answered(contacts: Seq<ContactView>, terms: Seq<Seq<char>>, i: int)
    requires
        0 <= i < terms.len(),
    ensures
        exists|before: Seq<ResolvedView>, after: Seq<ResolvedView>|
            before == answered_each(contacts, terms.take(i)) && answered_each(contacts, terms)
                == #[trigger] (before + answered(contacts, terms[i]) + after),
    decreases terms.len(),
{
    let front = terms.drop_last();
    let last = answered(contacts, terms.last());
    if i == terms.len() - 1 {
        let before = answered_each(contacts, front);
        assert(terms.take(i) =~= front);
        assert(answered_each(contacts, terms) =~= before + answered(contacts, terms[i])
            + Seq::<ResolvedView>::empty());
    } else {
        every_term_is_answered(contacts, front, i);
        assert(front.take(i) =~= terms.take(i));
        let before = answered_each(contacts, terms.take(i));
        let after = choose|after: Seq<ResolvedView>|
            answered_each(contacts, front) == #[trigger] (before + answered(contacts, terms[i])
                + after);
        assert(answered_each(contacts, terms) =~= before + answered(contacts, terms[i]) + (after
            + last));
    }
}

/// An attachment keeps the name it has, and one without is told apart by its id.
pub proof fn an_attachment_keeps_its_name(name: Seq<char>, id: i64)
    ensures
        called(Some(name), id) == name,
        called(None, id) == "attachment-"@ + text::decimal(id as int),
{
}

} // verus!
