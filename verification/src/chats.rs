//! The conversation listing: which chats a query names, and which threads are
//! one conversation.
use vstd::prelude::*;

use crate::contacts::{self, ContactIndex, ContactView};
use crate::db::{self, Chat, ChatRow, chat_from_row};
use crate::matching::{self, begins_a_word};
use crate::people::{self, person_identity};
use crate::text::{self, borrowed, same, text_has};

verus! {

/// A chat is named by a query: by a name from the start of a word, by an
/// address anywhere in it, or, where it has no name of its own, by a name
/// somebody in it is filed under.
pub open spec fn names(query: Seq<char>, chat: Chat, contacts: Seq<ContactView>) -> bool {
    let needle = text::lowercase(query);
    ||| matching::begins(text::lowercase(chat.name@), needle)
    ||| chat.display_name is Some && matching::begins(
        text::lowercase(chat.display_name->0@),
        needle,
    )
    ||| chat.handles is Some && text::contains(text::lowercase(chat.handles->0@), needle)
    ||| text::contains(text::lowercase(chat.identifier@), needle)
    ||| chat.display_name is None && chat.handles is Some && contacts::any_reaches(
        contacts,
        chat.handles->0@,
        needle,
        false,
    )
}

/// The chats a query names, in order.
pub open spec fn named(query: Seq<char>, chats: Seq<Chat>, contacts: Seq<ContactView>) -> Seq<Chat>
    decreases chats.len(),
{
    if chats.len() == 0 {
        Seq::empty()
    } else if names(query, chats.last(), contacts) {
        named(query, chats.drop_last(), contacts).push(chats.last())
    } else {
        named(query, chats.drop_last(), contacts)
    }
}

/// Whether a query, already lowercased, names a chat.
fn is_named(needle: &str, chat: &Chat, contacts: &ContactIndex, Ghost(query): Ghost<Seq<char>>) -> (yes:
    bool)
    requires
        needle@ == text::lowercase(query),
    ensures
        yes == names(query, *chat, contacts@.contacts),
{
    if begins_a_word(chat.name.to_lowercase().as_str(), needle) {
        return true;
    }
    if let Some(display) = &chat.display_name {
        if begins_a_word(display.to_lowercase().as_str(), needle) {
            return true;
        }
    }
    if let Some(handles) = &chat.handles {
        if text_has(handles.to_lowercase().as_str(), needle) {
            return true;
        }
    }
    if text_has(chat.identifier.to_lowercase().as_str(), needle) {
        return true;
    }
    chat.display_name.is_none() && contacts.any_answers_to(borrowed(&chat.handles), needle)
}

/// Keep the chats a query names, matched against contact names as well as rows.
///
/// A name matches from the start of a word, an address matches anywhere: `ana`
/// must not reach Dana Reyes, while the middle of a phone number is exactly how
/// anyone types a fragment of one. A displaced filed name is shown nowhere, so
/// it is searched separately — but only where the name shown in its place is
/// searched too.
pub fn retain_matching(chats: Vec<Chat>, query: &str, contacts: &ContactIndex) -> (out: Vec<Chat>)
    ensures
        out@ == named(query@, chats@, contacts@.contacts),
{
    let needle = query.to_lowercase();
    let ghost all = chats@;
    let mut out: Vec<Chat> = Vec::new();
    for chat in iter: chats
        invariant
            iter.seq() == all,
            needle@ == text::lowercase(query@),
            out@ == named(query@, all.take(iter.index() as int), contacts@.contacts),
    {
        proof {
            let n = iter.index() as int;
            assert(all.take(n + 1).drop_last() =~= all.take(n));
            assert(all.take(n + 1).last() == chat);
        }
        if is_named(needle.as_str(), &chat, contacts, Ghost(query@)) {
            out.push(chat);
        }
    }
    assert(all.take(all.len() as int) =~= all);
    out
}

/// How many rows a caller asking for `limit` gets: none for a negative limit.
pub open spec fn wanted(limit: int) -> int {
    if limit < 0 {
        0
    } else if limit > usize::MAX {
        usize::MAX as int
    } else {
        limit
    }
}

/// How many rows a caller asking for `limit` gets.
///
/// Clamped, because a negative limit does not convert to a small `usize` — it
/// fails to convert at all, and the fallback behind it would hand back every row
/// there is.
pub fn want(limit: i64) -> (out: usize)
    ensures
        out == wanted(limit as int),
{
    if limit < 0 {
        0
    } else if limit as u64 > usize::MAX as u64 {
        usize::MAX
    } else {
        limit as usize
    }
}

/// The first `n` of `items`.
pub open spec fn first<T>(items: Seq<T>, n: int) -> Seq<T> {
    if n < items.len() {
        items.take(n)
    } else {
        items
    }
}

/// `chats` are what `rows` say, one each and in order.
pub open spec fn lists_each(
    rows: Seq<ChatRow>,
    contacts: Seq<ContactView>,
    chats: Seq<Chat>,
) -> bool {
    &&& rows.len() == chats.len()
    &&& forall|i: int| 0 <= i < rows.len() ==> db::lists(#[trigger] rows[i], contacts, chats[i])
}

/// The chats some rows are.
pub fn chats_from_rows(rows: Vec<ChatRow>, contacts: &ContactIndex) -> (out: Vec<Chat>)
    ensures
        lists_each(rows@, contacts@.contacts, out@),
{
    let ghost all = rows@;
    let mut out: Vec<Chat> = Vec::new();
    for row in iter: rows
        invariant
            iter.seq() == all,
            lists_each(all.take(iter.index() as int), contacts@.contacts, out@),
    {
        proof {
            let n = iter.index() as int;
            assert(all.take(n + 1) =~= all.take(n).push(row));
        }
        out.push(chat_from_row(row, contacts));
    }
    assert(all.take(all.len() as int) =~= all);
    out
}

/// Threads matching a query, in the order of the rows.
///
/// A query is matched here and never in SQL, so the rule is one rule: without a
/// query the rows are the answer.
pub fn fetch_chats(rows: Vec<ChatRow>, query: Option<&str>, limit: i64, contacts: &ContactIndex) -> (out:
    Vec<Chat>)
    ensures
        exists|chats: Seq<Chat>|
            {
                &&& #[trigger] lists_each(rows@, contacts@.contacts, chats)
                &&& out@ == (match query {
                    None => chats,
                    Some(query) => first(
                        named(query@, chats, contacts@.contacts),
                        wanted(limit as int),
                    ),
                })
            },
{
    let chats = chats_from_rows(rows, contacts);
    let ghost all = chats@;
    assert(lists_each(rows@, contacts@.contacts, all));
    match query {
        None => chats,
        Some(query) => {
            let mut kept = retain_matching(chats, query, contacts);
            kept.truncate(want(limit));
            assert(kept@ =~= first(
                named(query@, all, contacts@.contacts),
                wanted(limit as int),
            ));
            kept
        },
    }
}

/// The person a one-to-one conversation is with, or nobody for a group.
pub open spec fn with_person(chat: Chat, contacts: Seq<ContactView>) -> Option<Seq<char>> {
    if chat.is_group {
        None
    } else {
        match chat.handles {
            Some(handle) => Some(people::identity(handle@, contacts)),
            None => None,
        }
    }
}

/// The person a one-to-one conversation is with, or `None` for a group.
///
/// A group has no single person to be, which is exactly why it cannot stand in
/// for one when conversations are being told apart.
pub fn sole_person(chat: &Chat, contacts: &ContactIndex) -> (out: Option<String>)
    ensures
        text::maybe(out) == with_person(*chat, contacts@.contacts),
{
    if chat.is_group {
        return None;
    }
    match &chat.handles {
        Some(handle) => Some(person_identity(handle.as_str(), contacts)),
        None => None,
    }
}

/// One conversation of a listing: the thread it opened with, and what is a sum
/// over its threads.
#[verifier::ext_equal]
pub struct Listed {
    pub leader: int,
    pub message_count: int,
    pub handles: Option<Seq<char>>,
}

/// Two lists of handles, joined by a comma.
pub open spec fn both_handles(
    mine: Option<Seq<char>>,
    theirs: Option<Seq<char>>,
) -> Option<Seq<char>> {
    match (mine, theirs) {
        (Some(mine), Some(theirs)) => Some(mine + ","@ + theirs),
        (None, Some(theirs)) => Some(theirs),
        (mine, None) => mine,
    }
}

/// Which conversation of a listing is with this person.
pub open spec fn conversation_with(
    listed: Seq<Listed>,
    chats: Seq<Chat>,
    contacts: Seq<ContactView>,
    person: Seq<char>,
) -> Option<nat>
    decreases listed.len(),
{
    if listed.len() == 0 {
        None
    } else {
        match conversation_with(listed.drop_last(), chats, contacts, person) {
            Some(at) => Some(at),
            None => if with_person(chats[listed.last().leader], contacts) == Some(person) {
                Some((listed.len() - 1) as nat)
            } else {
                None
            },
        }
    }
}

/// The first `n` threads as conversations: each person's threads are one, led by
/// the first of them, and everything else is a conversation of its own.
pub open spec fn listing(chats: Seq<Chat>, contacts: Seq<ContactView>, n: nat) -> Seq<Listed>
    decreases n,
{
    if n == 0 {
        Seq::empty()
    } else {
        let before = listing(chats, contacts, (n - 1) as nat);
        let chat = chats[n - 1];
        let alone = Listed {
            leader: n - 1,
            message_count: chat.message_count as int,
            handles: text::maybe(chat.handles),
        };
        match with_person(chat, contacts) {
            None => before.push(alone),
            Some(person) => match conversation_with(before, chats, contacts, person) {
                None => before.push(alone),
                Some(at) => before.update(
                    at as int,
                    Listed {
                        leader: before[at as int].leader,
                        message_count: before[at as int].message_count + chat.message_count,
                        handles: both_handles(
                            before[at as int].handles,
                            text::maybe(chat.handles),
                        ),
                    },
                ),
            },
        }
    }
}

/// `chat` is the conversation `listed`: its leading thread, with what is summed.
pub open spec fn shows(listed: Listed, chats: Seq<Chat>, chat: Chat) -> bool {
    &&& 0 <= listed.leader < chats.len()
    &&& chat == (Chat {
        message_count: chat.message_count,
        handles: chat.handles,
        ..chats[listed.leader]
    })
    &&& chat.message_count == listed.message_count
    &&& text::maybe(chat.handles) == listed.handles
}

/// `out` is the listing, conversation for conversation.
pub open spec fn shows_each(listed: Seq<Listed>, chats: Seq<Chat>, out: Seq<Chat>) -> bool {
    &&& listed.len() == out.len()
    &&& forall|i: int| 0 <= i < listed.len() ==> shows(#[trigger] listed[i], chats, out[i])
}

/// How many messages these threads hold together.
pub open spec fn total(chats: Seq<Chat>) -> int
    decreases chats.len(),
{
    if chats.len() == 0 {
        0
    } else {
        total(chats.drop_last()) + chats.last().message_count
    }
}

/// How many messages these conversations hold together.
pub open spec fn total_listed(listed: Seq<Listed>) -> int
    decreases listed.len(),
{
    if listed.len() == 0 {
        0
    } else {
        total_listed(listed.drop_last()) + listed.last().message_count
    }
}

/// Every thread's count is a count, and all of them together fit in one.
pub open spec fn countable(chats: Seq<Chat>) -> bool {
    &&& forall|i: int| 0 <= i < chats.len() ==> (#[trigger] chats[i]).message_count >= 0
    &&& total(chats) <= i64::MAX
}

proof fn total_after_update(listed: Seq<Listed>, at: int, new: Listed)
    requires
        0 <= at < listed.len(),
    ensures
        total_listed(listed.update(at, new)) == total_listed(listed) - listed[at].message_count
            + new.message_count,
    decreases listed.len(),
{
    let after = listed.update(at, new);
    if at == listed.len() - 1 {
        assert(after.drop_last() =~= listed.drop_last());
    } else {
        assert(after.drop_last() =~= listed.drop_last().update(at, new));
        total_after_update(listed.drop_last(), at, new);
    }
}

proof fn conversation_is_within(
    listed: Seq<Listed>,
    chats: Seq<Chat>,
    contacts: Seq<ContactView>,
    person: Seq<char>,
)
    ensures
        match conversation_with(listed, chats, contacts, person) {
            Some(at) => at < listed.len() && with_person(
                chats[listed[at as int].leader],
                contacts,
            ) == Some(person),
            None => forall|i: int|
                0 <= i < listed.len() ==> with_person(
                    chats[(#[trigger] listed[i]).leader],
                    contacts,
                ) != Some(person),
        },
    decreases listed.len(),
{
    if listed.len() > 0 {
        conversation_is_within(listed.drop_last(), chats, contacts, person);
        assert forall|i: int| 0 <= i < listed.drop_last().len() implies #[trigger] listed[i]
            == listed.drop_last()[i] by {}
    }
}

/// Collapsing threads loses no messages: the listing counts as many as the
/// threads it was made of.
pub proof fn a_listing_counts_every_message(
    chats: Seq<Chat>,
    contacts: Seq<ContactView>,
    n: nat,
)
    requires
        n <= chats.len(),
    ensures
        total_listed(listing(chats, contacts, n)) == total(chats.take(n as int)),
    decreases n,
{
    if n > 0 {
        a_listing_counts_every_message(chats, contacts, (n - 1) as nat);
        let before = listing(chats, contacts, (n - 1) as nat);
        let after = listing(chats, contacts, n);
        let chat = chats[n - 1];
        assert(chats.take(n as int).drop_last() =~= chats.take(n - 1));
        match with_person(chat, contacts) {
            None => {
                assert(after.drop_last() =~= before);
            },
            Some(person) => {
                conversation_is_within(before, chats, contacts, person);
                match conversation_with(before, chats, contacts, person) {
                    None => {
                        assert(after.drop_last() =~= before);
                    },
                    Some(at) => {
                        total_after_update(before, at as int, after[at as int]);
                    },
                }
            },
        }
    }
}

proof fn totals_grow(chats: Seq<Chat>, n: int)
    requires
        countable(chats),
        0 <= n <= chats.len(),
    ensures
        0 <= total(chats.take(n)) <= total(chats),
    decreases chats.len(),
{
    if n < chats.len() {
        let rest = chats.drop_last();
        assert(countable(rest)) by {
            assert forall|i: int| 0 <= i < rest.len() implies (#[trigger] rest[i]).message_count
                >= 0 by {
                assert(chats[i].message_count >= 0);
            }
            assert(chats[chats.len() - 1].message_count >= 0);
        }
        assert(chats[chats.len() - 1].message_count >= 0);
        assert(rest.take(n) =~= chats.take(n));
        totals_grow(rest, n);
    } else {
        assert(chats.take(n) =~= chats);
        if chats.len() > 0 {
            let rest = chats.drop_last();
            assert(chats[chats.len() - 1].message_count >= 0);
            assert(countable(rest)) by {
                assert forall|i: int| 0 <= i < rest.len() implies (
                #[trigger] rest[i]).message_count >= 0 by {
                    assert(chats[i].message_count >= 0);
                }
            }
            assert(rest.take(rest.len() as int) =~= rest);
            totals_grow(rest, rest.len() as int);
        }
    }
}

/// No conversation counts fewer than none, and none more than all of them.
proof fn counts_stay_in_range(chats: Seq<Chat>, contacts: Seq<ContactView>, n: nat)
    requires
        countable(chats),
        n <= chats.len(),
    ensures
        forall|i: int|
            0 <= i < listing(chats, contacts, n).len() ==> 0 <= (#[trigger] listing(
                chats,
                contacts,
                n,
            )[i]).message_count <= total(chats.take(n as int)),
    decreases n,
{
    if n > 0 {
        counts_stay_in_range(chats, contacts, (n - 1) as nat);
        totals_grow(chats, n as int);
        totals_grow(chats, n - 1);
        let before = listing(chats, contacts, (n - 1) as nat);
        let after = listing(chats, contacts, n);
        assert(chats.take(n as int).drop_last() =~= chats.take(n - 1));
        assert(chats[n - 1].message_count >= 0);
        if let Some(person) = with_person(chats[n - 1], contacts) {
            conversation_is_within(before, chats, contacts, person);
        }
        assert forall|i: int| 0 <= i < after.len() implies 0 <= (
        #[trigger] after[i]).message_count <= total(chats.take(n as int)) by {
            if i < before.len() {
                assert(0 <= before[i].message_count <= total(chats.take(n - 1)));
            }
        }
    }
}

/// Add a later thread to the conversation its person's leading thread opened.
///
/// The handles are joined so that a search still reaches someone by an address
/// that is not the one their newest thread uses.
fn fold_into(conversation: Chat, thread: Chat) -> (out: Chat)
    requires
        i64::MIN <= conversation.message_count + thread.message_count <= i64::MAX,
    ensures
        out == (Chat { message_count: out.message_count, handles: out.handles, ..conversation }),
        out.message_count == conversation.message_count + thread.message_count,
        text::maybe(out.handles) == both_handles(
            text::maybe(conversation.handles),
            text::maybe(thread.handles),
        ),
{
    let mut conversation = conversation;
    conversation.message_count = conversation.message_count + thread.message_count;
    if let Some(handles) = thread.handles {
        let joined = match &conversation.handles {
            Some(mine) => {
                let mut both: String = mine.clone();
                both.append(",");
                both.append(handles.as_str());
                both
            },
            None => handles,
        };
        conversation.handles = Some(joined);
    }
    conversation
}

/// Which of the conversations so far is with this person.
fn conversation_of(
    people: &Vec<Option<String>>,
    person: &str,
    Ghost(listed): Ghost<Seq<Listed>>,
    Ghost(chats): Ghost<Seq<Chat>>,
    Ghost(contacts): Ghost<Seq<ContactView>>,
) -> (out: Option<usize>)
    requires
        people@.len() == listed.len(),
        forall|i: int|
            0 <= i < people@.len() ==> text::maybe(#[trigger] people@[i]) == with_person(
                chats[listed[i].leader],
                contacts,
            ),
    ensures
        match conversation_with(listed, chats, contacts, person@) {
            Some(at) => out is Some && out->0 == at && at < people@.len(),
            None => out is None,
        },
{
    proof {
        conversation_is_within(listed, chats, contacts, person@);
    }
    for i in 0..people.len()
        invariant
            people@.len() == listed.len(),
            forall|i: int|
                0 <= i < people@.len() ==> text::maybe(#[trigger] people@[i]) == with_person(
                    chats[listed[i].leader],
                    contacts,
                ),
            conversation_with(listed.take(i as int), chats, contacts, person@) is None,
    {
        proof {
            assert(listed.take(i + 1).drop_last() =~= listed.take(i as int));
            assert(listed.take(i + 1).last() == listed[i as int]);
            assert(text::maybe(people@[i as int]) == with_person(
                chats[listed[i as int].leader],
                contacts,
            ));
        }
        if let Some(who) = &people[i] {
            if same(who.as_str(), person) {
                proof {
                    conversation_stays(listed, chats, contacts, person@, i + 1);
                }
                return Some(i);
            }
        }
    }
    assert(listed.take(listed.len() as int) =~= listed);
    None
}

proof fn conversation_stays(
    listed: Seq<Listed>,
    chats: Seq<Chat>,
    contacts: Seq<ContactView>,
    person: Seq<char>,
    n: int,
)
    requires
        0 <= n <= listed.len(),
        conversation_with(listed.take(n), chats, contacts, person) is Some,
    ensures
        conversation_with(listed, chats, contacts, person) == conversation_with(
            listed.take(n),
            chats,
            contacts,
            person,
        ),
    decreases listed.len(),
{
    if n < listed.len() {
        assert(listed.drop_last().take(n) =~= listed.take(n));
        conversation_stays(listed.drop_last(), chats, contacts, person, n);
    } else {
        assert(listed.take(n) =~= listed);
    }
}

/// Collapse each person's threads into the one conversation they are.
///
/// The leading thread is the conversation: it is the most recently active, so it
/// is already both the send target and the date the conversation was last
/// touched; only what is genuinely a sum of the parts is recomputed. Groups pass
/// through untouched, since two rooms with the same membership are two rooms.
pub fn merge_listing(chats: Vec<Chat>, contacts: &ContactIndex) -> (out: Vec<Chat>)
    requires
        countable(chats@),
    ensures
        shows_each(listing(chats@, contacts@.contacts, chats@.len()), chats@, out@),
{
    let ghost all = chats@;
    let mut merged: Vec<Chat> = Vec::new();
    let mut people: Vec<Option<String>> = Vec::new();
    for chat in iter: chats
        invariant
            iter.seq() == all,
            countable(all),
            shows_each(
                listing(all, contacts@.contacts, iter.index() as nat),
                all,
                merged@,
            ),
            people@.len() == merged@.len(),
            forall|i: int|
                0 <= i < people@.len() ==> text::maybe(#[trigger] people@[i]) == with_person(
                    all[listing(all, contacts@.contacts, iter.index() as nat)[i].leader],
                    contacts@.contacts,
                ),
    {
        let ghost n = iter.index() as nat;
        let ghost before = listing(all, contacts@.contacts, n);
        let ghost after = listing(all, contacts@.contacts, n + 1);
        let ghost was = merged@;
        proof {
            assert(all[n as int] == chat);
            counts_stay_in_range(all, contacts@.contacts, n);
            totals_grow(all, n as int);
            totals_grow(all, n as int + 1);
            assert(all.take(n as int + 1).drop_last() =~= all.take(n as int));
            assert(chat.message_count >= 0);
        }
        match sole_person(&chat, contacts) {
            None => {
                merged.push(chat);
                people.push(None);
            },
            Some(person) => {
                match conversation_of(
                    &people,
                    person.as_str(),
                    Ghost(before),
                    Ghost(all),
                    Ghost(contacts@.contacts),
                ) {
                    Some(at) => {
                        assert(shows(before[at as int], all, was[at as int]));
                        let conversation = merged.remove(at);
                        let folded = fold_into(conversation, chat);
                        merged.insert(at, folded);
                        proof {
                            assert(merged@ =~= was.update(at as int, folded));
                            assert forall|i: int| 0 <= i < after.len() implies shows(
                                #[trigger] after[i],
                                all,
                                merged@[i],
                            ) by {
                                if i != at {
                                    assert(after[i] == before[i]);
                                    assert(shows(before[i], all, was[i]));
                                }
                            }
                            assert forall|i: int| 0 <= i < people@.len() implies text::maybe(
                                #[trigger] people@[i],
                            ) == with_person(all[after[i].leader], contacts@.contacts) by {
                                assert(after[i].leader == before[i].leader);
                            }
                        }
                    },
                    None => {
                        merged.push(chat);
                        people.push(Some(person));
                    },
                }
            },
        }
    }
    merged
}

/// The conversation listing: each person's threads collapsed into the one
/// conversation they are, then those the query names, then as many as were
/// asked for.
///
/// Neither the query nor the limit can run before the merge. The limit counts
/// conversations, and the query has to reach a person by an address that is not
/// the one their newest thread uses.
pub fn fetch_conversations(
    threads: Vec<Chat>,
    query: Option<&str>,
    limit: i64,
    contacts: &ContactIndex,
) -> (out: Vec<Chat>)
    requires
        countable(threads@),
    ensures
        exists|conversations: Seq<Chat>|
            {
                &&& #[trigger] shows_each(
                    listing(threads@, contacts@.contacts, threads@.len()),
                    threads@,
                    conversations,
                )
                &&& out@ == first(
                    (match query {
                        None => conversations,
                        Some(query) => named(query@, conversations, contacts@.contacts),
                    }),
                    wanted(limit as int),
                )
            },
{
    let ghost all = threads@;
    let merged = merge_listing(threads, contacts);
    let ghost conversations = merged@;
    assert(shows_each(listing(all, contacts@.contacts, all.len()), all, conversations));
    let mut kept = match query {
        None => merged,
        Some(query) => retain_matching(merged, query, contacts),
    };
    let ghost whole = kept@;
    kept.truncate(want(limit));
    assert(kept@ =~= first(whole, wanted(limit as int)));
    kept
}

/// Groups are never merged: every group in the threads is a conversation of the
/// listing, led by itself and by nothing else.
pub proof fn a_group_stays_itself(
    chats: Seq<Chat>,
    contacts: Seq<ContactView>,
    n: nat,
    i: int,
)
    requires
        0 <= i < n <= chats.len(),
        chats[i].is_group,
    ensures
        exists|k: int|
            0 <= k < listing(chats, contacts, n).len() && (#[trigger] listing(
                chats,
                contacts,
                n,
            )[k]) == (Listed {
                leader: i,
                message_count: chats[i].message_count as int,
                handles: text::maybe(chats[i].handles),
            }),
    decreases n,
{
    let before = listing(chats, contacts, (n - 1) as nat);
    let after = listing(chats, contacts, n);
    let own = Listed {
        leader: i,
        message_count: chats[i].message_count as int,
        handles: text::maybe(chats[i].handles),
    };
    if i == n - 1 {
        assert(after[after.len() - 1] == own);
    } else {
        a_group_stays_itself(chats, contacts, (n - 1) as nat, i);
        let k = choose|k: int| 0 <= k < before.len() && (#[trigger] before[k]) == own;
        if let Some(person) = with_person(chats[n - 1], contacts) {
            conversation_is_within(before, chats, contacts, person);
        }
        assert(after[k] == own);
    }
}

/// A person is one conversation: no two conversations of the listing are led by
/// threads with the same person.
pub proof fn a_person_is_listed_once(chats: Seq<Chat>, contacts: Seq<ContactView>, n: nat)
    requires
        n <= chats.len(),
    ensures
        forall|i: int, j: int|
            #![trigger listing(chats, contacts, n)[i], listing(chats, contacts, n)[j]]
            0 <= i < j < listing(chats, contacts, n).len() && with_person(
                chats[listing(chats, contacts, n)[i].leader],
                contacts,
            ) is Some ==> with_person(chats[listing(chats, contacts, n)[i].leader], contacts)
                != with_person(chats[listing(chats, contacts, n)[j].leader], contacts),
    decreases n,
{
    if n > 0 {
        a_person_is_listed_once(chats, contacts, (n - 1) as nat);
        let before = listing(chats, contacts, (n - 1) as nat);
        let after = listing(chats, contacts, n);
        if let Some(person) = with_person(chats[n - 1], contacts) {
            conversation_is_within(before, chats, contacts, person);
        }
        assert forall|i: int, j: int|
            #![trigger after[i], after[j]]
            0 <= i < j < after.len() && with_person(chats[after[i].leader], contacts)
                is Some implies with_person(chats[after[i].leader], contacts) != with_person(
            chats[after[j].leader],
            contacts,
        ) by {
            assert(after[i].leader == before[i].leader);
            if j < before.len() {
                assert(after[j].leader == before[j].leader);
                assert(with_person(chats[before[i].leader], contacts) != with_person(
                    chats[before[j].leader],
                    contacts,
                ));
            } else {
                assert(with_person(chats[before[i].leader], contacts) is Some);
            }
        }
    }
}

/// How a conversation is named when confirming a message sent to it.
pub open spec fn target(chat: Chat) -> Seq<char> {
    if chat.display_name is Some || chat.is_group || chat.identifier@.len() == 0
        || chat.identifier@ == chat.name@ {
        chat.name@
    } else {
        chat.name@ + " ("@ + chat.identifier@ + ")"@
    }
}

/// How to name a conversation when confirming a message sent to it.
///
/// The address goes in the line, for a one-to-one: somebody reachable two ways
/// has two conversations that render as the same name, and the address is
/// precisely what differs. A conversation with a name of its own is named by it.
pub fn describe_target(chat: &Chat) -> (out: String)
    ensures
        out@ == target(*chat),
{
    if chat.display_name.is_some() || chat.is_group || chat.identifier.as_str().is_empty() || same(
        chat.identifier.as_str(),
        chat.name.as_str(),
    ) {
        return chat.name.clone();
    }
    let mut out: String = chat.name.clone();
    out.append(" (");
    out.append(chat.identifier.as_str());
    out.append(")");
    out
}

/// A confirmation tells one person's two conversations apart: where two
/// one-to-ones are called the same and neither is called by its address, the
/// lines are the same only if the addresses are.
pub proof fn a_target_is_told_apart_by_its_address(a: Chat, b: Chat)
    requires
        a.display_name is None && !a.is_group && a.identifier@.len() > 0 && a.identifier@
            != a.name@,
        b.display_name is None && !b.is_group && b.identifier@.len() > 0 && b.identifier@
            != b.name@,
        a.name@ == b.name@,
        target(a) == target(b),
    ensures
        a.identifier@ == b.identifier@,
{
    let open = a.name@ + " ("@;
    let x = open + a.identifier@ + ")"@;
    let y = open + b.identifier@ + ")"@;
    assert(x.len() == y.len());
    assert forall|i: int| 0 <= i < a.identifier@.len() implies a.identifier@[i]
        == b.identifier@[i] by {
        assert(x[open.len() + i] == a.identifier@[i]);
        assert(y[open.len() + i] == b.identifier@[i]);
    }
    assert(a.identifier@ =~= b.identifier@);
}

/// A query keeps the chats it names, all of them and no others.
pub proof fn a_query_keeps_what_it_names(
    query: Seq<char>,
    chats: Seq<Chat>,
    contacts: Seq<ContactView>,
    i: int,
)
    requires
        0 <= i < chats.len(),
    ensures
        names(query, chats[i], contacts) ==> named(query, chats, contacts).contains(chats[i]),
        forall|j: int|
            0 <= j < named(query, chats, contacts).len() ==> names(
                query,
                #[trigger] named(query, chats, contacts)[j],
                contacts,
            ),
    decreases chats.len(),
{
    let front = chats.drop_last();
    let before = named(query, front, contacts);
    let out = named(query, chats, contacts);
    if front.len() > 0 {
        let k = if i < front.len() {
            i
        } else {
            0
        };
        a_query_keeps_what_it_names(query, front, contacts, k);
    }
    if names(query, chats[i], contacts) {
        if i == chats.len() - 1 {
            assert(out[out.len() - 1] == chats[i]);
        } else {
            assert(front[i] == chats[i]);
            let j = choose|j: int| 0 <= j < before.len() && before[j] == chats[i];
            assert(out[j] == chats[i]);
        }
    }
}

/// What names a chat: the beginning of its name or of a word in it, any part of an
/// address in it or of its identifier, and who is in it by the name they are filed
/// under, where the chat has no name of its own.
pub proof fn a_chat_is_named_by_its_name_and_its_addresses(
    query: Seq<char>,
    chat: Chat,
    contacts: Seq<ContactView>,
)
    ensures
        text::lowercase(query).is_prefix_of(text::lowercase(chat.name@)) ==> names(
            query,
            chat,
            contacts,
        ),
        chat.handles matches Some(handles) ==> (text::contains(
            text::lowercase(handles@),
            text::lowercase(query),
        ) ==> names(query, chat, contacts)),
        text::contains(text::lowercase(chat.identifier@), text::lowercase(query)) ==> names(
            query,
            chat,
            contacts,
        ),
        chat.display_name is Some && !matching::begins(
            text::lowercase(chat.name@),
            text::lowercase(query),
        ) && !matching::begins(
            text::lowercase(chat.display_name->0@),
            text::lowercase(query),
        ) && (chat.handles is Some ==> !text::contains(
            text::lowercase(chat.handles->0@),
            text::lowercase(query),
        )) && !text::contains(text::lowercase(chat.identifier@), text::lowercase(query)) ==> !names(
            query,
            chat,
            contacts,
        ),
{
    let needle = text::lowercase(query);
    let name = text::lowercase(chat.name@);
    if needle.is_prefix_of(name) {
        assert(name.subrange(0, needle.len() as int) =~= needle);
        assert(text::occurs_at(name, needle, 0));
        assert(matching::opens_a_word(name, 0));
    }
}

/// Two threads that are one conversation keep every address of both.
pub proof fn both_threads_keep_their_handles(a: Seq<char>, b: Seq<char>)
    ensures
        both_handles(Some(a), Some(b)) is Some,
        text::split(both_handles(Some(a), Some(b))->0, ',') == text::split(a, ',') + text::split(
            b,
            ',',
        ),
        both_handles(None, Some(b)) == Some(b),
        both_handles(Some(a), None) == Some(a),
{
    reveal_strlit(",");
    assert(a + ","@ + b =~= a.push(',') + b);
    text::pieces_of_both(a, b, ',');
}

/// A limit takes from the front: as many as are asked for, in their order, and none for
/// a negative one.
pub proof fn a_limit_takes_the_first<T>(items: Seq<T>, limit: int)
    requires
        limit <= usize::MAX,
    ensures
        first(items, wanted(limit)).is_prefix_of(items),
        limit < 0 ==> first(items, wanted(limit)).len() == 0,
        0 <= limit <= items.len() ==> first(items, wanted(limit)).len() == limit,
        limit > items.len() ==> first(items, wanted(limit)) == items,
{
}

/// Whom a message is said to go to is whoever the chat is with, and for somebody
/// without a room of their own by the address too, unless that is what they are called.
pub proof fn a_target_is_whom_it_goes_to(chat: Chat)
    ensures
        chat.name@.is_prefix_of(target(chat)),
        chat.display_name is None && !chat.is_group && chat.identifier@.len() > 0
            && chat.identifier@ != chat.name@ ==> (" ("@ + chat.identifier@ + ")"@).is_suffix_of(
            target(chat),
        ),
        chat.display_name is Some || chat.is_group ==> target(chat) == chat.name@,
{
    let all = target(chat);
    assert(all.take(chat.name@.len() as int) =~= chat.name@);
    let end = " ("@ + chat.identifier@ + ")"@;
    if chat.display_name is None && !chat.is_group && chat.identifier@.len() > 0
        && chat.identifier@ != chat.name@ {
        assert(all =~= chat.name@ + end);
        assert(all.skip(chat.name@.len() as int) =~= end);
    }
}

/// Conversations stand in the order of the threads that lead them, and every conversation
/// is led by one of the threads.
pub proof fn conversations_keep_their_order(
    chats: Seq<Chat>,
    contacts: Seq<ContactView>,
    n: nat,
    i: int,
    j: int,
)
    requires
        n <= chats.len(),
        0 <= i < j < listing(chats, contacts, n).len(),
    ensures
        0 <= listing(chats, contacts, n)[i].leader < listing(chats, contacts, n)[j].leader < n,
    decreases n,
{
    let before = listing(chats, contacts, (n - 1) as nat);
    let after = listing(chats, contacts, n);
    if let Some(person) = with_person(chats[n - 1], contacts) {
        conversation_is_within(before, chats, contacts, person);
    }
    assert(after[i].leader == before[i].leader);
    if j < before.len() {
        assert(after[j].leader == before[j].leader);
        conversations_keep_their_order(chats, contacts, (n - 1) as nat, i, j);
    } else {
        leaders_are_threads(chats, contacts, (n - 1) as nat, i);
    }
}

proof fn leaders_are_threads(chats: Seq<Chat>, contacts: Seq<ContactView>, n: nat, i: int)
    requires
        n <= chats.len(),
        0 <= i < listing(chats, contacts, n).len(),
    ensures
        0 <= listing(chats, contacts, n)[i].leader < n,
    decreases n,
{
    let before = listing(chats, contacts, (n - 1) as nat);
    let after = listing(chats, contacts, n);
    if let Some(person) = with_person(chats[n - 1], contacts) {
        conversation_is_within(before, chats, contacts, person);
    }
    if i < before.len() {
        assert(after[i].leader == before[i].leader);
        leaders_are_threads(chats, contacts, (n - 1) as nat, i);
    }
}

/// The first thread with somebody is the one that leads their conversation: a later one is
/// not listed beside it.
pub proof fn the_first_thread_leads(
    chats: Seq<Chat>,
    contacts: Seq<ContactView>,
    n: nat,
    i: int,
)
    requires
        0 <= i < n <= chats.len(),
        forall|k: int|
            0 <= k < i ==> with_person(#[trigger] chats[k], contacts) != with_person(
                chats[i],
                contacts,
            ),
    ensures
        exists|k: int|
            0 <= k < listing(chats, contacts, n).len() && (#[trigger] listing(
                chats,
                contacts,
                n,
            )[k]).leader == i,
    decreases n,
{
    let before = listing(chats, contacts, (n - 1) as nat);
    let after = listing(chats, contacts, n);
    if let Some(person) = with_person(chats[n - 1], contacts) {
        conversation_is_within(before, chats, contacts, person);
    }
    if i == n - 1 {
        if let Some(person) = with_person(chats[i], contacts) {
            if let Some(at) = conversation_with(before, chats, contacts, person) {
                leaders_are_threads(chats, contacts, (n - 1) as nat, at as int);
                assert(with_person(chats[before[at as int].leader], contacts) == Some(person));
            }
        }
        assert(after[after.len() - 1].leader == i);
    } else {
        the_first_thread_leads(chats, contacts, (n - 1) as nat, i);
        let k = choose|k: int| 0 <= k < before.len() && (#[trigger] before[k]).leader == i;
        assert(after[k].leader == i);
    }
}

/// A conversation is shown as the thread that leads it, but for what is summed over all of
/// its threads.
pub proof fn a_conversation_is_shown_as_its_leader(listed: Listed, chats: Seq<Chat>, chat: Chat)
    requires
        shows(listed, chats, chat),
    ensures
        chat.rowid == chats[listed.leader].rowid,
        chat.guid == chats[listed.leader].guid,
        chat.name == chats[listed.leader].name,
        chat.identifier == chats[listed.leader].identifier,
        chat.display_name == chats[listed.leader].display_name,
        chat.is_group == chats[listed.leader].is_group,
        chat.member_count == chats[listed.leader].member_count,
        chat.last_date == chats[listed.leader].last_date,
        chat.is_filtered == chats[listed.leader].is_filtered,
        chat.message_count == listed.message_count,
{
}

/// A one-to-one is with whoever has its address, in whatever shape it is written, and a
/// group with nobody in particular.
pub proof fn a_thread_is_with_whoever_has_its_address(
    a: Chat,
    b: Chat,
    contacts: Seq<ContactView>,
)
    requires
        !a.is_group,
        !b.is_group,
        a.handles is Some,
        b.handles is Some,
    ensures
        with_person(a, contacts) is Some,
        crate::contacts::key(a.handles->0@) is Some && crate::contacts::key(a.handles->0@)
            == crate::contacts::key(b.handles->0@) ==> with_person(a, contacts) == with_person(
            b,
            contacts,
        ),
        forall|group: Chat| group.is_group ==> #[trigger] with_person(group, contacts) is None,
{
}

/// A chat without a name of its own is named by whoever is in it: by any word of the name
/// they are shown under or of the one they are filed under. A room that has a name is not.
pub proof fn an_unnamed_chat_is_named_by_who_is_in_it(
    query: Seq<char>,
    chat: Chat,
    contacts: Seq<ContactView>,
    i: int,
)
    requires
        chat.handles is Some,
        0 <= i < text::split(chat.handles->0@, ',').len(),
        crate::contacts::held(contacts, text::split(chat.handles->0@, ',')[i]) is Some,
        crate::contacts::held(contacts, text::split(chat.handles->0@, ',')[i])->0.answers(
            text::lowercase(query),
        ),
    ensures
        chat.display_name is None ==> names(query, chat, contacts),
{
    let pieces = text::split(chat.handles->0@, ',');
    let needle = text::lowercase(query);
    assert(crate::contacts::reaches(
        crate::contacts::held(contacts, pieces[i]),
        needle,
        false,
    ));
    assert(crate::contacts::any_reaches(contacts, chat.handles->0@, needle, false));
}

/// A chat that neither its name, its addresses nor anybody in it answers for is not named.
pub proof fn nothing_else_names_a_chat(query: Seq<char>, chat: Chat, contacts: Seq<ContactView>)
    requires
        !matching::begins(text::lowercase(chat.name@), text::lowercase(query)),
        chat.display_name is None,
        !text::contains(text::lowercase(chat.identifier@), text::lowercase(query)),
        chat.handles is Some ==> !text::contains(
            text::lowercase(chat.handles->0@),
            text::lowercase(query),
        ),
        chat.handles is Some ==> forall|i: int|
            0 <= i < text::split(chat.handles->0@, ',').len() ==> (match crate::contacts::held(
                contacts,
                #[trigger] text::split(chat.handles->0@, ',')[i],
            ) {
                Some(contact) => !contact.answers(text::lowercase(query)),
                None => true,
            }),
    ensures
        !names(query, chat, contacts),
{
    let needle = text::lowercase(query);
    if chat.handles is Some {
        let pieces = text::split(chat.handles->0@, ',');
        if crate::contacts::any_reaches(contacts, chat.handles->0@, needle, false) {
            let i = choose|i: int|
                0 <= i < pieces.len() && crate::contacts::reaches(
                    crate::contacts::held(contacts, #[trigger] pieces[i]),
                    needle,
                    false,
                );
            assert(crate::contacts::held(contacts, pieces[i]) is Some);
        }
    }
}

} // verus!
