//! Fetching messages: how many to ask for, which to keep, and what belongs on
//! each of them.
use vstd::prelude::*;

use crate::apple;
use crate::attachments::{self, AttachmentRow, attachments_of, describe_attachments};
use crate::bodies;
use crate::chats;
use crate::contacts::{ContactIndex, ContactView};
use crate::db::{self, Message, MessageRow, Tapback, text_column, to_message};
use crate::matching::{self, begins_a_word};
use crate::order::{self, Ordered, Ranked, sort};
use crate::people::PersonFilter;
use crate::queries;
use crate::replies::{self, OriginatorRow, reply_of};
use crate::sql::Stored;
use crate::tapbacks::{self, TapbackRow, tapbacks_on};
use crate::text::{self, copied, same};

verus! {

/// Which messages are wanted.
pub struct FetchMessages<'a> {
    pub chat_id: Option<i64>,
    pub after_date: Option<i64>,
    pub after_rowid: Option<i64>,
    /// Stop below this rowid, for the half of a context window that reaches
    /// backwards. Setting it also orders by rowid rather than by date, since a
    /// window is "what came just before this in the conversation".
    pub before_rowid: Option<i64>,
    pub query: Option<&'a str>,
    /// Restrict to one person, across every conversation they appear in.
    pub person: Option<PersonFilter<'a>>,
    pub limit: i64,
    pub include_tapbacks: bool,
    pub include_filtered: bool,
    /// Take the oldest matches rather than the newest. Following a conversation
    /// wants this: the newest N above a watermark silently skips everything
    /// between.
    pub oldest_first: bool,
}

impl Default for FetchMessages<'_> {
    fn default() -> (out: Self)
        ensures
            out.chat_id is None,
            out.after_date is None,
            out.after_rowid is None,
            out.before_rowid is None,
            out.query is None,
            out.person is None,
            out.limit == 50,
            !out.include_tapbacks,
            !out.include_filtered,
            !out.oldest_first,
    {
        FetchMessages {
            chat_id: None,
            after_date: None,
            after_rowid: None,
            before_rowid: None,
            query: None,
            person: None,
            limit: 50,
            include_tapbacks: false,
            include_filtered: false,
            oldest_first: false,
        }
    }
}

/// `n`, or the nearest `i64` to it.
pub open spec fn saturated(n: int) -> int {
    if n > i64::MAX {
        i64::MAX as int
    } else if n < i64::MIN {
        i64::MIN as int
    } else {
        n
    }
}

/// How many rows to ask for first. A search asks for more than it wants: the
/// limit bounds raw matches, and some of those are dropped once their bodies
/// are decoded.
pub open spec fn first_asked(limit: int, searching: bool) -> int {
    if searching {
        saturated(saturated(limit * 4) + 64)
    } else {
        limit
    }
}

/// How many rows to ask for first.
///
/// Already generous, because a wider limit is close to free and a second pass
/// is not.
pub fn first_ask(limit: i64, searching: bool) -> (out: i64)
    ensures
        out == first_asked(limit as int, searching),
{
    if !searching {
        return limit;
    }
    let wide: i64 = match limit.checked_mul(4) {
        Some(wide) => wide,
        None => if limit > 0 {
            i64::MAX
        } else {
            i64::MIN
        },
    };
    match wide.checked_add(64) {
        Some(wider) => wider,
        None => i64::MAX,
    }
}

/// How many messages a limit lets through: a negative one lets through all.
pub open spec fn upto(limit: int) -> int {
    if 0 <= limit <= usize::MAX {
        limit
    } else {
        usize::MAX as int
    }
}

/// How many messages a limit lets through.
pub fn up_to(limit: i64) -> (out: usize)
    ensures
        out == upto(limit as int),
{
    if limit < 0 || limit as u64 > usize::MAX as u64 {
        usize::MAX
    } else {
        limit as usize
    }
}

/// A row is what was searched for: some word of what it says begins with the
/// query, whatever the case of either.
pub open spec fn hit(row: MessageRow, query: Option<Seq<char>>) -> bool {
    match (query, db::body(row.text, row.attributed_body)) {
        (None, _) => true,
        (Some(query), Some(body)) => matching::begins(text::lowercase(body), text::lowercase(query)),
        (Some(_), None) => false,
    }
}

/// Those of `rows` that are what was searched for.
pub open spec fn hits(rows: Seq<MessageRow>, query: Option<Seq<char>>) -> Seq<MessageRow>
    decreases rows.len(),
{
    if rows.len() == 0 {
        Seq::empty()
    } else if hit(rows.last(), query) {
        hits(rows.drop_last(), query).push(rows.last())
    } else {
        hits(rows.drop_last(), query)
    }
}

/// A message, and the guid of the one it replies to.
///
/// Read beside the message rather than stored on it: a guid is no use to a
/// reader, and what it names is published as [`crate::db::ReplyTo`] instead.
pub struct Candidate {
    pub message: Message,
    pub answering: Option<String>,
}

/// `candidate` is what `row` says.
pub open spec fn offers(
    row: MessageRow,
    contacts: Seq<ContactView>,
    candidate: Candidate,
) -> bool {
    &&& db::says(row, contacts, candidate.message)
    &&& text::maybe(candidate.answering) == db::column(row.thread_originator_guid)
}

/// `candidates` are what `rows` say, one each and in order.
pub open spec fn offers_each(
    rows: Seq<MessageRow>,
    contacts: Seq<ContactView>,
    candidates: Seq<Candidate>,
) -> bool {
    &&& rows.len() == candidates.len()
    &&& forall|i: int|
        0 <= i < rows.len() ==> offers(#[trigger] rows[i], contacts, candidates[i])
}

/// A row, read.
fn candidate_from_row(row: MessageRow, contacts: &ContactIndex) -> (out: Candidate)
    ensures
        offers(row, contacts@.contacts, out),
{
    let answering = text_column(copied(&row.thread_originator_guid));
    let message = to_message(row, contacts);
    Candidate { message, answering }
}

/// Whether a message is what was searched for.
fn is_hit(message: &Message, needle: &str) -> (yes: bool)
    ensures
        yes == (message.body is Some && matching::begins(
            text::lowercase(message.body->0@),
            needle@,
        )),
{
    match &message.body {
        Some(body) => begins_a_word(body.to_lowercase().as_str(), needle),
        None => false,
    }
}

/// What to do after a round of asking.
pub enum Step {
    /// Ask again, for this many.
    Wider(i64),
    /// These are the ones.
    Found(Vec<Candidate>),
}

/// A round of asking has an answer: enough was found, there is nothing further
/// back to find, nothing could have been dropped, or no more can be asked for.
pub open spec fn settled(
    rows: Seq<MessageRow>,
    asking: int,
    limit: int,
    query: Option<Seq<char>>,
) -> bool {
    ||| hits(rows, query).len() >= upto(limit)
    ||| rows.len() < asking
    ||| query is None
    ||| !(i64::MIN <= asking * 4 <= i64::MAX)
}

/// What came of asking for `asking` rows: those that were searched for, up to
/// the limit, or a wider question.
///
/// Narrower than what the rows were selected by: a hit has to start where a
/// word starts, and that is only decidable on a decoded body.
pub fn consider(
    rows: Vec<MessageRow>,
    asking: i64,
    limit: i64,
    query: Option<&str>,
    contacts: &ContactIndex,
) -> (out: Step)
    ensures
        out is Found <==> settled(rows@, asking as int, limit as int, text::maybe_str(query)),
        out matches Step::Found(found) ==> offers_each(
            chats::first(hits(rows@, text::maybe_str(query)), upto(limit as int)),
            contacts@.contacts,
            found@,
        ),
        out matches Step::Wider(wider) ==> wider == asking * 4,
{
    let ghost all = rows@;
    let ghost sought = text::maybe_str(query);
    let exhausted = asking >= 0 && (rows.len() as u64) < asking as u64;
    let needle: Option<String> = match query {
        Some(query) => Some(query.to_lowercase()),
        None => None,
    };
    let mut found: Vec<Candidate> = Vec::new();
    for row in iter: rows
        invariant
            iter.seq() == all,
            sought == text::maybe_str(query),
            needle is Some <==> query is Some,
            needle is Some ==> needle->0@ == text::lowercase(sought->0),
            offers_each(hits(all.take(iter.index() as int), sought), contacts@.contacts, found@),
    {
        proof {
            let upto = all.take(iter.index() as int + 1);
            assert(upto.drop_last() =~= all.take(iter.index() as int));
            assert(upto.last() == row);
        }
        let candidate = candidate_from_row(row, contacts);
        let keep = match &needle {
            Some(needle) => is_hit(&candidate.message, needle.as_str()),
            None => true,
        };
        assert(keep == hit(row, sought));
        if keep {
            found.push(candidate);
        }
    }
    assert(all.take(all.len() as int) =~= all);
    let wanted: usize = up_to(limit);
    if !(found.len() >= wanted || exhausted || query.is_none()) {
        if let Some(wider) = asking.checked_mul(4) {
            return Step::Wider(wider);
        }
    }
    let ghost kept = found@;
    found.truncate(wanted);
    assert(found@ =~= chats::first(kept, upto(limit as int)));
    Step::Found(found)
}

/// What the other tables say about the messages found.
pub struct Lookups {
    /// The attachments of those messages.
    pub files: Vec<AttachmentRow>,
    /// The messages that some of them reply to.
    pub originators: Vec<OriginatorRow>,
    /// The attachments of the messages replied to.
    pub quoted: Vec<AttachmentRow>,
    /// The reactions to those messages.
    pub reactions: Vec<TapbackRow>,
}

/// What a candidate replies to, among the messages looked up.
pub open spec fn answered(candidate: Candidate, found: Lookups) -> Option<OriginatorRow> {
    match candidate.answering {
        Some(guid) => replies::originator(found.originators@, guid@),
        None => None,
    }
}

/// The reactions that stand on a candidate. A reaction is itself no target.
pub open spec fn reactions_on(candidate: Candidate, found: Lookups) -> Seq<TapbackRow> {
    if candidate.message.is_tapback {
        Seq::empty()
    } else {
        tapbacks::showing(tapbacks::surviving(found.reactions@, candidate.message.guid@))
    }
}

/// `message` is `candidate` with what belongs on it: its attachments, described
/// where its body points at them, what it replies to, and the reactions to it.
pub open spec fn completed(
    candidate: Candidate,
    found: Lookups,
    contacts: Seq<ContactView>,
    message: Message,
) -> bool {
    &&& message == (Message {
        body: message.body,
        attachments: message.attachments,
        reply_to: message.reply_to,
        tapbacks: message.tapbacks,
        ..candidate.message
    })
    &&& attachments::files_each(
        attachments::rows_of(found.files@, candidate.message.rowid),
        message.attachments@,
    )
    &&& text::maybe(message.body) == attachments::with_attachments(
        text::maybe(candidate.message.body),
        message.attachments@,
    )
    &&& message.reply_to is Some <==> answered(candidate, found) is Some
    &&& message.reply_to is Some ==> replies::quotes(
        answered(candidate, found)->0,
        found.quoted@,
        contacts,
        message.reply_to->0,
    )
    &&& tapbacks::reacts_each(reactions_on(candidate, found), contacts, message.tapbacks@)
}

/// Put on one message what belongs on it.
fn complete(candidate: Candidate, found: &Lookups, contacts: &ContactIndex) -> (out: Message)
    ensures
        completed(candidate, *found, contacts@.contacts, out),
{
    let ghost whole = candidate;
    let Candidate { message, answering } = candidate;
    let attachments = attachments_of(&found.files, message.rowid);
    let reply_to = match &answering {
        Some(guid) => reply_of(guid.as_str(), &found.originators, &found.quoted, contacts),
        None => None,
    };
    let tapbacks: Vec<Tapback> = if message.is_tapback {
        Vec::new()
    } else {
        tapbacks_on(&found.reactions, message.guid.as_str(), contacts)
    };
    let mut message = message;
    let mut body: Option<String> = None;
    std::mem::swap(&mut body, &mut message.body);
    message.body = describe_attachments(body, &attachments);
    message.attachments = attachments;
    message.reply_to = reply_to;
    message.tapbacks = tapbacks;
    message
}

/// `items` the other way round.
pub fn reversed<T>(items: Vec<T>) -> (out: Vec<T>)
    ensures
        out@ == items@.reverse(),
{
    let ghost all = items@;
    let mut items = items;
    let mut out: Vec<T> = Vec::new();
    while items.len() > 0
        invariant
            items@ == all.take(items@.len() as int),
            items@.len() <= all.len(),
            out@ == all.skip(items@.len() as int).reverse(),
        decreases items@.len(),
    {
        let ghost n = items@.len() as int;
        if let Some(item) = items.pop() {
            out.push(item);
            assert(items@ =~= all.take(n - 1));
            assert(out@ =~= all.skip(n - 1).reverse());
        }
    }
    assert(all.skip(0) =~= all);
    out
}

/// The messages found, each with what belongs on it, oldest first: turned round
/// where they were asked for newest first.
pub fn finish(
    candidates: Vec<Candidate>,
    found: &Lookups,
    contacts: &ContactIndex,
    oldest_first: bool,
) -> (out: Vec<Message>)
    ensures
        out@.len() == candidates@.len(),
        forall|i: int|
            0 <= i < out@.len() ==> completed(
                candidates@[if oldest_first {
                    i
                } else {
                    out@.len() - 1 - i
                }],
                *found,
                contacts@.contacts,
                #[trigger] out@[i],
            ),
{
    let ghost all = candidates@;
    let mut out: Vec<Message> = Vec::new();
    for candidate in iter: candidates
        invariant
            iter.seq() == all,
            out@.len() == iter.index(),
            forall|i: int|
                0 <= i < out@.len() ==> completed(
                    all[i],
                    *found,
                    contacts@.contacts,
                    #[trigger] out@[i],
                ),
    {
        out.push(complete(candidate, found, contacts));
    }
    if oldest_first {
        out
    } else {
        reversed(out)
    }
}

/// The rowids of what was found, to ask about their attachments.
pub fn rowids_of(candidates: &[Candidate]) -> (out: Vec<i64>)
    ensures
        out@.len() == candidates@.len(),
        forall|i: int| 0 <= i < out@.len() ==> #[trigger] out@[i] == candidates@[i].message.rowid,
{
    let mut out: Vec<i64> = Vec::new();
    for i in 0..candidates.len()
        invariant
            out@.len() == i,
            forall|j: int|
                0 <= j < out@.len() ==> #[trigger] out@[j] == candidates@[j].message.rowid,
    {
        out.push(candidates[i].message.rowid);
    }
    out
}

/// The guids that some of these reply to.
pub open spec fn answered_by(candidates: Seq<Candidate>) -> Seq<Seq<char>>
    decreases candidates.len(),
{
    if candidates.len() == 0 {
        Seq::empty()
    } else {
        match candidates.last().answering {
            Some(guid) => answered_by(candidates.drop_last()).push(guid@),
            None => answered_by(candidates.drop_last()),
        }
    }
}

/// The guids of those that can be reacted to.
pub open spec fn reactable(candidates: Seq<Candidate>) -> Seq<Seq<char>>
    decreases candidates.len(),
{
    if candidates.len() == 0 {
        Seq::empty()
    } else if candidates.last().message.is_tapback {
        reactable(candidates.drop_last())
    } else {
        reactable(candidates.drop_last()).push(candidates.last().message.guid@)
    }
}

/// The guids to look replies up by: each once, in order.
pub fn answered_guids(candidates: &[Candidate]) -> (out: Vec<String>)
    ensures
        asks_once(answered_by(candidates@), text::all_of(out@)),
{
    let mut all: Vec<String> = Vec::new();
    assert(text::all_of(all@) =~= answered_by(candidates@.take(0)));
    for i in 0..candidates.len()
        invariant
            text::all_of(all@) == answered_by(candidates@.take(i as int)),
    {
        proof {
            assert(candidates@.take(i + 1).drop_last() =~= candidates@.take(i as int));
            assert(candidates@.take(i + 1).last() == candidates@[i as int]);
        }
        let ghost before = text::all_of(all@);
        if let Some(guid) = &candidates[i].answering {
            all.push(guid.clone());
            assert(text::all_of(all@) =~= before.push(guid@));
        }
    }
    assert(candidates@.take(candidates@.len() as int) =~= candidates@);
    texts_to_ask(all)
}

/// The guids to look reactions up by: each once, in order.
pub fn reacted_guids(candidates: &[Candidate]) -> (out: Vec<String>)
    ensures
        asks_once(reactable(candidates@), text::all_of(out@)),
{
    let mut all: Vec<String> = Vec::new();
    assert(text::all_of(all@) =~= reactable(candidates@.take(0)));
    for i in 0..candidates.len()
        invariant
            text::all_of(all@) == reactable(candidates@.take(i as int)),
    {
        proof {
            assert(candidates@.take(i + 1).drop_last() =~= candidates@.take(i as int));
            assert(candidates@.take(i + 1).last() == candidates@[i as int]);
        }
        let ghost before = text::all_of(all@);
        if !candidates[i].message.is_tapback {
            all.push(candidates[i].message.guid.clone());
            assert(text::all_of(all@) =~= before.push(candidates@[i as int].message.guid@));
        }
    }
    assert(candidates@.take(candidates@.len() as int) =~= candidates@);
    texts_to_ask(all)
}

/// `asked` are the texts of `all`: each once, in order.
pub open spec fn asks_once(all: Seq<Seq<char>>, asked: Seq<Seq<char>>) -> bool {
    &&& forall|i: int, j: int|
        #![trigger asked[i], asked[j]]
        0 <= i < j < asked.len() ==> order::text_before(asked[i], asked[j])
    &&& forall|text: Seq<char>| all.contains(text) <==> #[trigger] asked.contains(text)
}

proof fn texts_are_ordered()
    ensures
        order::weak_order::<String>(),
{
    assert forall|a: String, b: String| #[trigger] a.before(&b) implies !b.before(&a) by {
        order::text_order_is_total(a@, b@);
    }
    assert forall|a: String, b: String, c: String|
        !#[trigger] b.before(&a) && !#[trigger] c.before(&b) implies !c.before(&a) by {
        order::text_order_carries(a@, b@, c@);
    }
}

/// Each of these texts once, in order.
pub fn texts_to_ask(all: Vec<String>) -> (out: Vec<String>)
    ensures
        asks_once(text::all_of(all@), text::all_of(out@)),
{
    let ghost given = all@;
    let sorted = sort(all);
    let ghost inorder = sorted@;
    proof {
        texts_are_ordered();
        order::sorting_orders(given);
        order::sorting_keeps_everything(given);
        assert forall|text: Seq<char>|
            text::all_of(given).contains(text) <==> #[trigger] text::all_of(inorder).contains(
                text,
            ) by {
            if text::all_of(given).contains(text) {
                same_texts(given, inorder, text);
            }
            if text::all_of(inorder).contains(text) {
                same_texts(inorder, given, text);
            }
        }
    }
    let mut out: Vec<String> = Vec::new();
    for text in iter: sorted
        invariant
            iter.seq() == inorder,
            forall|i: int, j: int|
                #![trigger inorder[i], inorder[j]]
                0 <= i < j < inorder.len() ==> !inorder[j].before(&inorder[i]),
            iter.index() > 0 <==> out@.len() > 0,
            iter.index() > 0 ==> out@.last()@ == inorder[iter.index() - 1]@,
            asks_once(
                text::all_of(inorder.take(iter.index() as int)),
                text::all_of(out@),
            ),
    {
        let ghost n = iter.index() as int;
        let ghost before = text::all_of(out@);
        let ghost was = text::all_of(inorder.take(n));
        let ghost now = text::all_of(inorder.take(n + 1));
        assert(now =~= was.push(text@));
        let repeat = if out.len() == 0 {
            false
        } else {
            same(out[out.len() - 1].as_str(), text.as_str())
        };
        if repeat {
            assert(before[before.len() - 1] == text@);
            assert forall|t: Seq<char>| now.contains(t) <==> #[trigger] before.contains(t) by {
                pushed_contains(was, text@, t);
                assert(was.contains(t) <==> before.contains(t));
            }
        } else {
            proof {
                if n > 0 {
                    assert(!inorder[n].before(&inorder[n - 1]));
                    order::text_order_is_total(before.last(), text@);
                    assert(order::text_before(before.last(), text@));
                    assert forall|i: int| 0 <= i < before.len() implies order::text_before(
                        #[trigger] before[i],
                        text@,
                    ) by {
                        if i < before.len() - 1 {
                            assert(order::text_before(before[i], before[before.len() - 1]));
                            order::text_order_is_total(before[i], before.last());
                            order::text_order_is_total(before.last(), text@);
                            order::text_order_is_total(before[i], text@);
                            order::text_order_carries(before[i], before.last(), text@);
                            if before[i] == text@ {
                                assert(false);
                            }
                        }
                    }
                }
            }
            let ghost added = text@;
            out.push(text);
            assert(text::all_of(out@) =~= before.push(added));
            assert forall|t: Seq<char>| now.contains(t) <==> #[trigger] text::all_of(
                out@,
            ).contains(t) by {
                pushed_contains(was, added, t);
                pushed_contains(before, added, t);
                assert(was.contains(t) <==> before.contains(t));
            }
        }
    }
    assert(inorder.take(inorder.len() as int) =~= inorder);
    out
}

proof fn pushed_contains<T>(s: Seq<T>, x: T, t: T)
    ensures
        s.push(x).contains(t) <==> s.contains(t) || t == x,
{
    let all = s.push(x);
    if s.contains(t) {
        let i = choose|i: int| 0 <= i < s.len() && s[i] == t;
        assert(all[i] == t);
    }
    assert(all[s.len() as int] == x);
}

proof fn same_texts(a: Seq<String>, b: Seq<String>, text: Seq<char>)
    requires
        a.to_multiset() == b.to_multiset(),
        text::all_of(a).contains(text),
    ensures
        text::all_of(b).contains(text),
{
    broadcast use vstd::seq_lib::group_to_multiset_ensures;

    let i = choose|i: int| 0 <= i < a.len() && text::all_of(a)[i] == text;
    assert(a.contains(a[i]));
    assert(b.to_multiset().count(a[i]) > 0);
    assert(b.contains(a[i]));
    let j = choose|j: int| 0 <= j < b.len() && b[j] == a[i];
    assert(text::all_of(b)[j] == text);
}

/// How the messages of one thread are asked for when a conversation is read.
pub fn thread_options<'a>(
    chat_id: i64,
    after_date: Option<i64>,
    limit: i64,
    include_tapbacks: bool,
) -> (out: FetchMessages<'a>)
    ensures
        out == (FetchMessages {
            chat_id: Some(chat_id),
            after_date,
            after_rowid: None,
            before_rowid: None,
            query: None,
            person: None,
            limit: at_least_none(limit as int) as i64,
            include_tapbacks,
            include_filtered: false,
            oldest_first: false,
        }),
        forall|ours: Seq<i64>, row: Stored|
            #[trigger] queries::selects(out, ours, row) <==> {
                &&& row.chat_id == chat_id
                &&& after_date matches Some(date) ==> row.date is Some && row.date->0 > date
                &&& include_tapbacks || row.kind == Some(0int)
            },
        forall|a: Stored, b: Stored|
            #[trigger] queries::comes_first(out, a, b) <==> a.date is Some && b.date is Some
                && a.date->0 > b.date->0,
{
    FetchMessages {
        chat_id: Some(chat_id),
        after_date,
        limit: none_or_more(limit),
        include_tapbacks,
        ..FetchMessages::default()
    }
}

/// A count, with a negative one read as none.
pub open spec fn at_least_none(limit: int) -> int {
    if limit < 0 {
        0
    } else {
        limit
    }
}

/// A count, with a negative one read as none: it would otherwise reach a query
/// as no limit at all.
pub fn none_or_more(limit: i64) -> (out: i64)
    ensures
        out == at_least_none(limit as int),
{
    if limit < 0 {
        0
    } else {
        limit
    }
}

/// The order a transcript is read in: by date, a missing one first, and by
/// rowid only to break a tie.
impl Ordered for Message {
    open spec fn before(&self, other: &Self) -> bool {
        match (self.date, other.date) {
            (None, None) => self.rowid < other.rowid,
            (None, Some(_)) => true,
            (Some(_), None) => false,
            (Some(a), Some(b)) => a < b || (a == b && self.rowid < other.rowid),
        }
    }
}

impl Ranked for Message {
    fn is_before(&self, other: &Self) -> (yes: bool) {
        match (self.date, other.date) {
            (None, None) => self.rowid < other.rowid,
            (None, Some(_)) => true,
            (Some(_), None) => false,
            (Some(a), Some(b)) => a < b || (a == b && self.rowid < other.rowid),
        }
    }
}

/// The messages of every thread, one thread after another.
pub open spec fn end_to_end(threads: Seq<Vec<Message>>) -> Seq<Message>
    decreases threads.len(),
{
    if threads.len() == 0 {
        Seq::empty()
    } else {
        end_to_end(threads.drop_last()) + threads.last()@
    }
}

/// `messages`, those left out that repeat the rowid of the one kept before them.
pub open spec fn told_once(messages: Seq<Message>) -> Seq<Message>
    decreases messages.len(),
{
    if messages.len() == 0 {
        Seq::empty()
    } else {
        let before = told_once(messages.drop_last());
        if before.len() > 0 && before.last().rowid == messages.last().rowid {
            before
        } else {
            before.push(messages.last())
        }
    }
}

/// The last `n` of `items`.
pub open spec fn newest<T>(items: Seq<T>, n: int) -> Seq<T> {
    if n < items.len() {
        items.skip(items.len() - n)
    } else {
        items
    }
}

/// A conversation read across its threads: a single thread as it is, and
/// several as one transcript of the newest `limit` messages.
pub open spec fn transcript(threads: Seq<Vec<Message>>, limit: int) -> Seq<Message> {
    if threads.len() < 2 {
        end_to_end(threads)
    } else {
        newest(told_once(order::stably(end_to_end(threads))), upto(at_least_none(limit)))
    }
}

/// Everything from position `from` on.
fn tail_of(messages: Vec<Message>, from: usize) -> (out: Vec<Message>)
    requires
        from <= messages@.len(),
    ensures
        out@ == messages@.skip(from as int),
{
    let ghost all = messages@;
    let mut out: Vec<Message> = Vec::new();
    let mut at: usize = 0;
    for message in iter: messages
        invariant
            iter.seq() == all,
            from <= all.len(),
            at == (if iter.index() < from {
                iter.index() as int
            } else {
                from as int
            }),
            out@ == (if iter.index() < from {
                Seq::<Message>::empty()
            } else {
                all.subrange(from as int, iter.index() as int)
            }),
    {
        if at < from {
            at += 1;
            assert(all.subrange(from as int, from as int) =~= Seq::<Message>::empty());
        } else {
            let ghost n = iter.index() as int;
            out.push(message);
            assert(out@ =~= all.subrange(from as int, n + 1));
        }
    }
    assert(out@ =~= all.skip(from as int));
    out
}

/// Read a conversation that may span more than one thread, oldest first.
///
/// Each thread gave at most `limit` of its own newest, so the newest `limit` of
/// them together are the answer. A message joined to two of these threads
/// arrives from both and is told once.
pub fn merge_threads(threads: Vec<Vec<Message>>, limit: i64) -> (out: Vec<Message>)
    ensures
        out@ == transcript(threads@, limit as int),
{
    let ghost given = threads@;
    let count: usize = threads.len();
    let mut merged: Vec<Message> = Vec::new();
    for thread in iter: threads
        invariant
            iter.seq() == given,
            merged@ == end_to_end(given.take(iter.index() as int)),
    {
        proof {
            let upto = given.take(iter.index() as int + 1);
            assert(upto.drop_last() =~= given.take(iter.index() as int));
            assert(upto.last() == thread);
        }
        let mut thread = thread;
        merged.append(&mut thread);
    }
    assert(given.take(given.len() as int) =~= given);
    if count < 2 {
        return merged;
    }
    let sorted = sort(merged);
    let ghost inorder = sorted@;
    let mut kept: Vec<Message> = Vec::new();
    for message in iter: sorted
        invariant
            iter.seq() == inorder,
            kept@ == told_once(inorder.take(iter.index() as int)),
    {
        proof {
            let upto = inorder.take(iter.index() as int + 1);
            assert(upto.drop_last() =~= inorder.take(iter.index() as int));
            assert(upto.last() == message);
        }
        if kept.len() == 0 || kept[kept.len() - 1].rowid != message.rowid {
            kept.push(message);
        }
    }
    assert(inorder.take(inorder.len() as int) =~= inorder);
    let wanted: usize = up_to(none_or_more(limit));
    if kept.len() > wanted {
        let from: usize = kept.len() - wanted;
        tail_of(kept, from)
    } else {
        kept
    }
}

proof fn reading_order_holds()
    ensures
        order::weak_order::<Message>(),
{
    assert forall|a: Message, b: Message| #[trigger] a.before(&b) implies !b.before(&a) by {}
    assert forall|a: Message, b: Message, c: Message|
        !#[trigger] b.before(&a) && !#[trigger] c.before(&b) implies !c.before(&a) by {}
}

/// Nothing in `messages` comes before anything that stands ahead of it.
pub open spec fn reads_in_order(messages: Seq<Message>) -> bool {
    forall|i: int, j: int|
        #![trigger messages[i], messages[j]]
        0 <= i < j < messages.len() ==> !messages[j].before(&messages[i])
}

/// Several threads read as one: in the order of the clock, no more than were
/// asked for.
pub proof fn a_merged_conversation_reads_in_order(threads: Seq<Vec<Message>>, limit: int)
    requires
        threads.len() >= 2,
    ensures
        reads_in_order(transcript(threads, limit)),
        transcript(threads, limit).len() <= upto(at_least_none(limit)),
{
    let all = order::stably(end_to_end(threads));
    reading_order_holds();
    order::sorting_orders(end_to_end(threads));
    told_in_order(all);
}

/// What is told once stands in the order of what it was told from: each message
/// kept is one of them, no earlier in it than its own position.
proof fn told_in_order(messages: Seq<Message>)
    requires
        reads_in_order(messages),
    ensures
        reads_in_order(told_once(messages)),
        told_once(messages).len() <= messages.len(),
        messages.len() > 0 ==> told_once(messages).len() > 0,
        forall|i: int|
            0 <= i < told_once(messages).len() ==> messages.contains(
                #[trigger] told_once(messages)[i],
            ),
    decreases messages.len(),
{
    if messages.len() > 0 {
        let rest = messages.drop_last();
        told_in_order(rest);
        let before = told_once(rest);
        let out = told_once(messages);
        assert forall|i: int| 0 <= i < before.len() implies rest.contains(
            #[trigger] before[i],
        ) && !messages.last().before(&before[i]) by {
            let at = choose|at: int| 0 <= at < rest.len() && rest[at] == before[i];
            assert(messages[at] == before[i]);
            assert(!messages[messages.len() - 1].before(&messages[at]));
        }
        assert forall|i: int| 0 <= i < out.len() implies messages.contains(#[trigger] out[i]) by {
            if i < before.len() {
                assert(out[i] == before[i]);
                let at = choose|at: int| 0 <= at < rest.len() && rest[at] == before[i];
                assert(messages[at] == out[i]);
            } else {
                assert(messages[messages.len() - 1] == out[i]);
            }
        }
        assert forall|i: int, j: int|
            #![trigger out[i], out[j]]
            0 <= i < j < out.len() implies !out[j].before(&out[i]) by {
            assert(out[i] == before[i]);
            if j < before.len() {
                assert(out[j] == before[j]);
            }
        }
    }
}

/// A message joined to two of the threads is told once: rows for one message
/// agree about its date, so they stand next to each other.
pub proof fn a_message_in_two_threads_is_told_once(threads: Seq<Vec<Message>>, limit: int)
    requires
        threads.len() >= 2,
        forall|i: int, j: int|
            #![trigger end_to_end(threads)[i], end_to_end(threads)[j]]
            0 <= i < end_to_end(threads).len() && 0 <= j < end_to_end(threads).len() && end_to_end(
                threads,
            )[i].rowid == end_to_end(threads)[j].rowid ==> end_to_end(threads)[i].date
                == end_to_end(threads)[j].date,
    ensures
        forall|i: int, j: int|
            #![trigger transcript(threads, limit)[i], transcript(threads, limit)[j]]
            0 <= i < j < transcript(threads, limit).len() ==> transcript(threads, limit)[i].rowid
                != transcript(threads, limit)[j].rowid,
{
    let given = end_to_end(threads);
    let all = order::stably(given);
    reading_order_holds();
    order::sorting_orders(given);
    order::sorting_keeps_everything(given);
    assert forall|i: int, j: int|
        #![trigger all[i], all[j]]
        0 <= i < all.len() && 0 <= j < all.len() && all[i].rowid == all[j].rowid implies all[i].date
        == all[j].date by {
        broadcast use vstd::seq_lib::group_to_multiset_ensures;

        assert(all.contains(all[i]) && all.contains(all[j]));
        assert(given.to_multiset().count(all[i]) > 0 && given.to_multiset().count(all[j]) > 0);
        assert(given.contains(all[i]) && given.contains(all[j]));
        let a = choose|a: int| 0 <= a < given.len() && given[a] == all[i];
        let b = choose|b: int| 0 <= b < given.len() && given[b] == all[j];
        assert(given[a].rowid == given[b].rowid);
    }
    told_apart(all);
    let kept = told_once(all);
    let out = transcript(threads, limit);
    assert forall|i: int, j: int| #![trigger out[i], out[j]] 0 <= i < j < out.len() implies out[i].rowid
        != out[j].rowid by {
        let skip = kept.len() - out.len();
        assert(out[i] == kept[i + skip]);
        assert(out[j] == kept[j + skip]);
    }
}

proof fn told_apart(messages: Seq<Message>)
    requires
        reads_in_order(messages),
        forall|i: int, j: int|
            #![trigger messages[i], messages[j]]
            0 <= i < messages.len() && 0 <= j < messages.len() && messages[i].rowid
                == messages[j].rowid ==> messages[i].date == messages[j].date,
    ensures
        forall|i: int, j: int|
            #![trigger told_once(messages)[i], told_once(messages)[j]]
            0 <= i < j < told_once(messages).len() ==> told_once(messages)[i].rowid != told_once(
                messages,
            )[j].rowid,
        messages.len() > 0 ==> told_once(messages).len() > 0 && told_once(messages).last().rowid
            == messages.last().rowid,
    decreases messages.len(),
{
    if messages.len() > 0 {
        let rest = messages.drop_last();
        told_apart(rest);
        told_in_order(rest);
        let before = told_once(rest);
        let out = told_once(messages);
        let last = messages.last();
        if !(before.len() > 0 && before.last().rowid == last.rowid) {
            assert forall|i: int| 0 <= i < before.len() implies (#[trigger] before[i]).rowid
                != last.rowid by {
                if before[i].rowid == last.rowid {
                    // It would stand between itself and the last one kept.
                    assert(rest.contains(before[i]));
                    let at = choose|at: int| 0 <= at < rest.len() && rest[at] == before[i];
                    assert(messages[at] == before[i]);
                    let n = rest.len() - 1;
                    assert(messages[n] == rest.last());
                    assert(messages[n].rowid == before.last().rowid);
                    assert(messages[messages.len() - 1].date == messages[at].date);
                    if at < n {
                        assert(!messages[n].before(&messages[at]));
                        assert(!messages[messages.len() - 1].before(&messages[n]));
                    }
                    assert(false);
                }
            }
            assert forall|i: int, j: int|
                #![trigger out[i], out[j]]
                0 <= i < j < out.len() implies out[i].rowid != out[j].rowid by {
                assert(out[i] == before[i]);
                if j < before.len() {
                    assert(out[j] == before[j]);
                }
            }
        }
    }
}

/// A search reads every row it would keep: a message that is what was searched
/// for passes the test the query puts to its columns.
///
/// Of an ASCII query this holds wherever the body folds in place, and of another
/// where the body is the text column, or folds in its run of the archive as it does
/// on its own. A body read from an archive is one that is UTF-8 throughout.
pub proof fn a_hit_passes_the_prefilter(row: MessageRow, query: Seq<char>)
    requires
        hit(row, Some(query)),
        vstd::utf8::is_ascii_chars(query) ==> {
            &&& text::lowercase(query) == text::ascii_lowercase(query)
            &&& bodies::folds_in_place(db::body(row.text, row.attributed_body)->0)
        },
        db::column(row.text) is None ==> {
            let bytes = apple::archived(db::blob(row.attributed_body)->0)->0;
            &&& vstd::utf8::is_ascii_chars(query) || bodies::folds_in_its_run(
                db::blob(row.attributed_body)->0,
                db::body(row.text, row.attributed_body)->0,
            )
            &&& vstd::utf8::valid_utf8(bytes)
            &&& apple::utf8_lossy(bytes) == vstd::utf8::decode_utf8(bytes)
        },
    ensures
        bodies::in_body(text::maybe(row.text), db::blob(row.attributed_body), query),
{
    let body = db::body(row.text, row.attributed_body)->0;
    matching::beginning_a_word_is_occurring(text::lowercase(body), text::lowercase(query));
    bodies::the_prefilter_loses_nothing(
        text::maybe(row.text),
        db::blob(row.attributed_body),
        body,
        query,
    );
}

/// Of several threads the newest messages are kept: what a limit leaves is the end of
/// the conversation, all of it where that is no more than were asked for.
pub proof fn a_limit_keeps_the_newest<T>(items: Seq<T>, n: int)
    requires
        n >= 0,
    ensures
        newest(items, n).is_suffix_of(items),
        n <= items.len() ==> newest(items, n).len() == n,
        n >= items.len() ==> newest(items, n) == items,
{
    if n < items.len() {
        assert(items.skip(items.len() - n) =~= newest(items, n));
    } else {
        assert(items.skip(0) =~= items);
    }
}

/// What a search keeps of what it read: every message some word of which begins with
/// the query, and no other, in the order they were read.
pub proof fn a_search_keeps_its_hits(rows: Seq<MessageRow>, query: Seq<char>, i: int)
    requires
        0 <= i < rows.len(),
    ensures
        hits(rows, Some(query)).contains(rows[i]) || db::body(
            rows[i].text,
            rows[i].attributed_body,
        ) is None || !matching::begins(
            text::lowercase(db::body(rows[i].text, rows[i].attributed_body)->0),
            text::lowercase(query),
        ),
        forall|j: int|
            0 <= j < hits(rows, Some(query)).len() ==> {
                let row = #[trigger] hits(rows, Some(query))[j];
                db::body(row.text, row.attributed_body) is Some && matching::begins(
                    text::lowercase(db::body(row.text, row.attributed_body)->0),
                    text::lowercase(query),
                )
            },
        hits(rows, None) == rows,
    decreases rows.len(),
{
    let front = rows.drop_last();
    let before = hits(front, Some(query));
    let out = hits(rows, Some(query));
    if front.len() > 0 {
        let k = if i < front.len() {
            i
        } else {
            0
        };
        a_search_keeps_its_hits(front, query, k);
    } else {
        assert(hits(front, None) =~= front);
    }
    assert(hits(rows, None) =~= rows);
    if i == rows.len() - 1 {
        if hit(rows[i], Some(query)) {
            assert(out[out.len() - 1] == rows[i]);
        }
    } else {
        assert(front[i] == rows[i]);
        if before.contains(rows[i]) {
            let j = choose|j: int| 0 <= j < before.len() && before[j] == rows[i];
            assert(out[j] == rows[i]);
        }
    }
}

/// A search asks for at least what it is to find, and for more where more can be asked
/// for; reading asks for exactly what it is to show.
pub proof fn a_search_asks_for_more_than_it_wants(limit: i64)
    requires
        limit >= 0,
    ensures
        first_asked(limit as int, false) == limit,
        first_asked(limit as int, true) >= limit,
        first_asked(limit as int, true) <= i64::MAX,
        first_asked(limit as int, true) == i64::MAX || first_asked(limit as int, true) == 4 * limit
            + 64,
{
}

/// Asking again is only for where it can help: fewer were found than are wanted, and what
/// was read was all that was asked for.
pub proof fn asking_again_is_for_more(
    rows: Seq<MessageRow>,
    asking: int,
    limit: int,
    query: Option<Seq<char>>,
)
    requires
        0 <= limit <= usize::MAX,
        0 <= asking <= i64::MAX,
    ensures
        !settled(rows, asking, limit, query) <==> query is Some && hits(rows, query).len() < limit
            && rows.len() >= asking && asking * 4 <= i64::MAX,
{
}

/// What is put on a message is its own and changes nothing else about it: as many
/// attachments as it has rows, a quote exactly where what it replies to was found, and
/// reactions only where it is none itself.
pub proof fn a_message_keeps_what_it_was(
    candidate: Candidate,
    found: Lookups,
    contacts: Seq<ContactView>,
    message: Message,
)
    requires
        completed(candidate, found, contacts, message),
    ensures
        message.rowid == candidate.message.rowid,
        message.guid == candidate.message.guid,
        message.chat_id == candidate.message.chat_id,
        message.chat_name == candidate.message.chat_name,
        message.date == candidate.message.date,
        message.sender == candidate.message.sender,
        message.handle == candidate.message.handle,
        message.is_from_me == candidate.message.is_from_me,
        message.is_tapback == candidate.message.is_tapback,
        message.attachments@.len() == attachments::rows_of(
            found.files@,
            candidate.message.rowid,
        ).len(),
        candidate.answering is None ==> message.reply_to is None,
        candidate.answering matches Some(guid) ==> (message.reply_to is Some
            <==> replies::originator(found.originators@, guid@) is Some),
        candidate.message.is_tapback ==> message.tapbacks@.len() == 0,
        !candidate.message.is_tapback ==> message.tapbacks@.len() == tapbacks::showing(
            tapbacks::surviving(found.reactions@, candidate.message.guid@),
        ).len(),
{
}

/// What a message replies to is looked up if and only if one of them replies to it.
pub proof fn every_reply_is_looked_up(candidates: Seq<Candidate>, guid: Seq<char>)
    ensures
        answered_by(candidates).contains(guid) <==> exists|i: int|
            0 <= i < candidates.len() && (#[trigger] candidates[i]).answering is Some
                && candidates[i].answering->0@ == guid,
    decreases candidates.len(),
{
    if candidates.len() > 0 {
        let rest = candidates.drop_last();
        let before = answered_by(rest);
        let all = answered_by(candidates);
        every_reply_is_looked_up(rest, guid);
        if all.contains(guid) {
            let k = choose|k: int| 0 <= k < all.len() && all[k] == guid;
            if k < before.len() {
                assert(before[k] == guid);
                let i = choose|i: int|
                    0 <= i < rest.len() && (#[trigger] rest[i]).answering is Some
                        && rest[i].answering->0@ == guid;
                assert(candidates[i].answering is Some);
            } else {
                assert(candidates[candidates.len() - 1].answering is Some);
            }
        }
        if exists|i: int|
            0 <= i < candidates.len() && (#[trigger] candidates[i]).answering is Some
                && candidates[i].answering->0@ == guid {
            let i = choose|i: int|
                0 <= i < candidates.len() && (#[trigger] candidates[i]).answering is Some
                    && candidates[i].answering->0@ == guid;
            if i < rest.len() {
                assert(rest[i].answering is Some);
                let k = choose|k: int| 0 <= k < before.len() && before[k] == guid;
                assert(all[k] == guid);
            } else {
                assert(all[all.len() - 1] == guid);
            }
        }
    }
}

/// Reactions are looked up for every message that is none itself, and for no other.
pub proof fn every_message_is_asked_for_its_reactions(candidates: Seq<Candidate>, guid: Seq<char>)
    ensures
        reactable(candidates).contains(guid) <==> exists|i: int|
            0 <= i < candidates.len() && !(#[trigger] candidates[i]).message.is_tapback
                && candidates[i].message.guid@ == guid,
    decreases candidates.len(),
{
    if candidates.len() > 0 {
        let rest = candidates.drop_last();
        let before = reactable(rest);
        let all = reactable(candidates);
        every_message_is_asked_for_its_reactions(rest, guid);
        if all.contains(guid) {
            let k = choose|k: int| 0 <= k < all.len() && all[k] == guid;
            if k < before.len() {
                assert(before[k] == guid);
                let i = choose|i: int|
                    0 <= i < rest.len() && !(#[trigger] rest[i]).message.is_tapback
                        && rest[i].message.guid@ == guid;
                assert(!candidates[i].message.is_tapback);
            } else {
                assert(!candidates[candidates.len() - 1].message.is_tapback);
            }
        }
        if exists|i: int|
            0 <= i < candidates.len() && !(#[trigger] candidates[i]).message.is_tapback
                && candidates[i].message.guid@ == guid {
            let i = choose|i: int|
                0 <= i < candidates.len() && !(#[trigger] candidates[i]).message.is_tapback
                    && candidates[i].message.guid@ == guid;
            if i < rest.len() {
                assert(!rest[i].message.is_tapback);
                let k = choose|k: int| 0 <= k < before.len() && before[k] == guid;
                assert(all[k] == guid);
            } else {
                assert(all[all.len() - 1] == guid);
            }
        }
    }
}

/// In a transcript an earlier message stands before a later one, and of two of one moment
/// the one that arrived first.
pub proof fn a_transcript_runs_with_the_clock(
    threads: Seq<Vec<Message>>,
    limit: int,
    i: int,
    j: int,
)
    requires
        threads.len() >= 2,
        0 <= i < j < transcript(threads, limit).len(),
        transcript(threads, limit)[i].date is Some,
        transcript(threads, limit)[j].date is Some,
    ensures
        transcript(threads, limit)[i].date->0 <= transcript(threads, limit)[j].date->0,
        transcript(threads, limit)[i].date == transcript(threads, limit)[j].date ==> transcript(
            threads,
            limit,
        )[i].rowid <= transcript(threads, limit)[j].rowid,
{
    a_merged_conversation_reads_in_order(threads, limit);
    assert(!transcript(threads, limit)[j].before(&transcript(threads, limit)[i]));
}

proof fn every_thread_is_read(threads: Seq<Vec<Message>>, k: int, i: int)
    requires
        0 <= k < threads.len(),
        0 <= i < threads[k]@.len(),
    ensures
        end_to_end(threads).contains(threads[k]@[i]),
    decreases threads.len(),
{
    let before = end_to_end(threads.drop_last());
    let all = end_to_end(threads);
    if k == threads.len() - 1 {
        assert(all[before.len() + i] == threads[k]@[i]);
    } else {
        assert(threads.drop_last()[k] == threads[k]);
        every_thread_is_read(threads.drop_last(), k, i);
        let j = choose|j: int| 0 <= j < before.len() && before[j] == threads[k]@[i];
        assert(all[j] == threads[k]@[i]);
    }
}

proof fn each_is_told(messages: Seq<Message>, i: int)
    requires
        0 <= i < messages.len(),
    ensures
        exists|j: int|
            0 <= j < told_once(messages).len() && (#[trigger] told_once(messages)[j]).rowid
                == messages[i].rowid,
    decreases messages.len(),
{
    let rest = messages.drop_last();
    let before = told_once(rest);
    let all = told_once(messages);
    if i < rest.len() {
        assert(rest[i] == messages[i]);
        each_is_told(rest, i);
        let j = choose|j: int|
            0 <= j < before.len() && (#[trigger] before[j]).rowid == messages[i].rowid;
        assert(all[j] == before[j]);
    } else {
        assert(all[all.len() - 1].rowid == messages[i].rowid);
    }
}

/// A conversation of several threads leaves nothing out: where the limit is wide enough
/// for all of it, every message of every thread is told.
pub proof fn no_thread_is_left_out(threads: Seq<Vec<Message>>, limit: int, k: int, i: int)
    requires
        threads.len() >= 2,
        0 <= k < threads.len(),
        0 <= i < threads[k]@.len(),
        end_to_end(threads).len() <= limit <= usize::MAX,
    ensures
        exists|j: int|
            0 <= j < transcript(threads, limit).len() && (#[trigger] transcript(
                threads,
                limit,
            )[j]).rowid == threads[k]@[i].rowid,
{
    let all = end_to_end(threads);
    let sorted = order::stably(all);
    let one = threads[k]@[i];
    every_thread_is_read(threads, k, i);
    order::sorting_keeps_each(all, one);
    order::sorting_keeps_everything(all);
    let at = choose|at: int| 0 <= at < sorted.len() && sorted[at] == one;
    each_is_told(sorted, at);
    telling_adds_nothing(sorted);
    assert(transcript(threads, limit) == told_once(sorted));
}

proof fn telling_adds_nothing(messages: Seq<Message>)
    ensures
        told_once(messages).len() <= messages.len(),
    decreases messages.len(),
{
    if messages.len() > 0 {
        telling_adds_nothing(messages.drop_last());
    }
}

/// In a transcript of several threads what has no date stands before what has one, in the
/// order it arrived.
pub proof fn what_has_no_date_is_read_first(
    threads: Seq<Vec<Message>>,
    limit: int,
    i: int,
    j: int,
)
    requires
        threads.len() >= 2,
        0 <= i < j < transcript(threads, limit).len(),
        transcript(threads, limit)[j].date is None,
    ensures
        transcript(threads, limit)[i].date is None,
        transcript(threads, limit)[i].rowid <= transcript(threads, limit)[j].rowid,
{
    a_merged_conversation_reads_in_order(threads, limit);
    assert(!transcript(threads, limit)[j].before(&transcript(threads, limit)[i]));
}

/// What a query is limited to is what it keeps: a limit that is given is kept to, and a
/// negative one is none at all.
pub proof fn a_limit_is_kept_to<T>(items: Seq<T>, limit: i64)
    requires
        items.len() <= usize::MAX,
        limit <= usize::MAX,
    ensures
        limit < 0 ==> chats::first(items, upto(limit as int)) == items,
        0 <= limit <= items.len() ==> chats::first(items, upto(limit as int)).len() == limit,
        limit > items.len() ==> chats::first(items, upto(limit as int)) == items,
        chats::first(items, upto(limit as int)).is_prefix_of(items),
{
}

} // verus!
