//! Whose conversation a name means.
//!
//! A spec that names somebody is resolved to the person and the person to their
//! threads. Chat rows are only matched as text once no person claims the spec.
use vstd::prelude::*;

use crate::attachments::{self, ids_to_ask};
use crate::contacts::{self, ContactIndex, ContactView, handle_key};
use crate::db::{self, Chat};
use crate::order::{self, Ordered, Ranked, sort};
use crate::people::{
    self, HandleRow, Match, Person, PersonSeen, is_among, people_matching, person_identity,
    resolve_person, several_people,
};
use crate::text::{
    self, borrowed, chars_of, count_of, decimal_of, is_digits, joined, opens_with, read_number,
    same, text_has,
};
use crate::{Error, ErrorView};

verus! {

/// How many candidates a name is resolved against before giving up on listing
/// them. A cap rather than a total, which is why an error that reaches it says
/// "at least" instead of naming a number it cannot stand behind.
pub const CHAT_MATCH_SCAN: i64 = 50;

/// How many chats an ambiguity names.
pub const SHOWN: usize = 6;

/// Where the answer to a spec is to be looked for.
#[derive(Debug)]
pub enum Plan {
    /// The thread with this rowid.
    Rowid(i64),
    /// The one-to-one threads of this person, and the rows of chats if they
    /// have none.
    Person(Person),
    /// The rows of chats.
    Text,
}

/// A [`Plan`], by its characters.
pub enum PlanSeen {
    Rowid(i64),
    Person(PersonSeen),
    Text,
}

impl View for Plan {
    type V = PlanSeen;

    open spec fn view(&self) -> PlanSeen {
        match self {
            Plan::Rowid(rowid) => PlanSeen::Rowid(*rowid),
            Plan::Person(person) => PlanSeen::Person(person@),
            Plan::Text => PlanSeen::Text,
        }
    }
}

/// One of the rooms is called exactly this, case aside.
pub open spec fn names_a_room(spec: Seq<char>, rooms: Seq<Seq<char>>) -> bool {
    exists|i: int|
        0 <= i < rooms.len() && text::lowercase(#[trigger] rooms[i]) == text::lowercase(spec)
}

/// One of `people` is in Contacts.
pub open spec fn any_contact(people: Seq<people::Candidate>) -> bool {
    exists|i: int|
        0 <= i < people.len() && "contact:"@.is_prefix_of((#[trigger] people[i]).identity)
}

/// Where the answer to a spec is to be looked for, or why there is none.
pub open spec fn planned(
    spec: Seq<char>,
    known: Seq<people::Address>,
    rooms: Seq<Seq<char>>,
    contacts: Seq<ContactView>,
) -> Result<PlanSeen, ErrorView> {
    let people = people::named(spec, known, contacts);
    let room = people.len() > 0 && names_a_room(spec, rooms);
    if text::all_digits(spec) {
        if text::number(spec) <= i64::MAX {
            Ok(PlanSeen::Rowid(text::number(spec) as i64))
        } else {
            Err(ErrorView::Other("no chat matching "@ + spec))
        }
    } else if text::trim(spec).len() == 0 {
        Err(ErrorView::Other("no one to search for"@))
    } else if people.len() > 1 && !room && any_contact(people) {
        Err(ErrorView::Other(people::several(spec, people)))
    } else if people.len() == 1 && !room {
        Ok(PlanSeen::Person(people[0].person))
    } else {
        Ok(PlanSeen::Text)
    }
}

/// What stands for a plan, or for why there is none.
pub open spec fn plan_or(out: Result<Plan, Error>) -> Result<PlanSeen, ErrorView> {
    match out {
        Ok(plan) => Ok(plan@),
        Err(error) => Err(error@),
    }
}

/// Whether any room's own name is exactly this spec.
///
/// A label somebody chose does not expire by going quiet, and the person-first
/// path must not win a tie it cannot see.
pub fn exactly_names_a_room(spec: &str, rooms: &[String]) -> (yes: bool)
    ensures
        yes == names_a_room(spec@, text::all_of(rooms@)),
{
    let lowered = spec.to_lowercase();
    for i in 0..rooms.len()
        invariant
            lowered@ == text::lowercase(spec@),
            forall|j: int|
                0 <= j < i ==> text::lowercase(#[trigger] text::all_of(rooms@)[j])
                    != text::lowercase(spec@),
    {
        if same(rooms[i].to_lowercase().as_str(), lowered.as_str()) {
            assert(text::lowercase(text::all_of(rooms@)[i as int]) == text::lowercase(spec@));
            return true;
        }
    }
    false
}

/// Whether one of `people` is in Contacts.
fn has_contact(people: &Vec<Match>) -> (yes: bool)
    ensures
        yes == any_contact(people::candidates(people@)),
{
    let mark = chars_of("contact:");
    for i in 0..people.len()
        invariant
            mark@ == "contact:"@,
            forall|j: int|
                0 <= j < i ==> !"contact:"@.is_prefix_of(
                    (#[trigger] people::candidates(people@)[j]).identity,
                ),
    {
        let identity = chars_of(people[i].identity.as_str());
        if opens_with(&identity, &mark) {
            assert("contact:"@.is_prefix_of(people::candidates(people@)[i as int].identity));
            return true;
        }
    }
    false
}

/// The error for a spec that reaches no chat.
fn no_chat(spec: &str) -> (out: Error)
    ensures
        out@ == ErrorView::Other("no chat matching "@ + spec@),
{
    let mut message: String = "no chat matching ".to_owned();
    message.append(spec);
    Error::Other(message)
}

/// Where the answer to a spec is to be looked for.
///
/// A rowid is a thread. Otherwise the person first, always: a spec that names
/// several people is an error, not a pick — unless none of them has a contact,
/// in which case it was a fragment of an address, and fragments of addresses
/// are text to search like anything else no contact claims. A room named exactly
/// this falls through to the text match instead of being beaten or spoken over.
pub fn plan(spec: &str, known: &[HandleRow], rooms: &[String], contacts: &ContactIndex) -> (out:
    Result<Plan, Error>)
    ensures
        plan_or(out) == planned(
            spec@,
            people::addresses(known@),
            text::all_of(rooms@),
            contacts@.contacts,
        ),
{
    let chars = chars_of(spec);
    if is_digits(&chars) {
        return match read_number(&chars) {
            Some(rowid) => Ok(Plan::Rowid(rowid)),
            None => Err(no_chat(spec)),
        };
    }
    let mut people = match people_matching(spec, known, contacts) {
        Ok(people) => people,
        Err(error) => return Err(error),
    };
    let room = people.len() > 0 && exactly_names_a_room(spec, rooms);
    if people.len() > 1 && !room && has_contact(&people) {
        return Err(several_people(spec, &people));
    }
    if people.len() == 1 && !room {
        let ghost all = people::candidates(people@);
        let only = people.remove(0);
        assert(all[0] == only@);
        return Ok(Plan::Person(only.person));
    }
    Ok(Plan::Text)
}

/// What the threads found by a rowid come to.
pub fn by_rowid(spec: &str, found: Vec<Chat>) -> (out: Result<Vec<Chat>, Error>)
    ensures
        found@.len() == 0 ==> out is Err && out->Err_0@ == ErrorView::Other(
            "no chat matching "@ + spec@,
        ),
        found@.len() > 0 ==> out == Ok::<Vec<Chat>, Error>(found),
{
    if found.len() == 0 {
        Err(no_chat(spec))
    } else {
        Ok(found)
    }
}

/// A chat, and how well its address fits the one that was typed: the address
/// itself, something that has it inside, or neither.
pub struct Aimed {
    pub rank: i64,
    pub chat: Chat,
}

impl Ordered for Aimed {
    open spec fn before(&self, other: &Self) -> bool {
        self.rank < other.rank
    }
}

impl Ranked for Aimed {
    fn is_before(&self, other: &Self) -> (yes: bool) {
        self.rank < other.rank
    }
}

/// How well a chat's address fits a typed one: nought where it is the address
/// and has it inside, and more for each that fails, the first counting double.
pub open spec fn rank(spec: Seq<char>, chat: Chat) -> int {
    let handles = db::or_empty(text::maybe(chat.handles));
    (if contacts::key(handles) == contacts::key(spec) {
        0int
    } else {
        2
    }) + (if text::contains(text::lowercase(handles), text::lowercase(spec)) {
        0int
    } else {
        1
    })
}

/// A chat with its rank.
pub open spec fn aimed(spec: Seq<char>, chat: Chat) -> Aimed {
    Aimed { rank: rank(spec, chat) as i64, chat }
}

/// A person's threads with those at the typed address leading. A name has no
/// address, so a name reorders nothing.
pub open spec fn led(spec: Seq<char>, threads: Seq<Chat>) -> Seq<Chat> {
    if contacts::key(spec) is Some {
        order::stably(threads.map_values(|chat: Chat| aimed(spec, chat))).map_values(
            |one: Aimed| one.chat,
        )
    } else {
        threads
    }
}

/// Put the thread at the typed address at the head of a person's threads.
///
/// The leading thread is where a send goes, and a send addressed to a number
/// must not drift to whichever thread spoke last. A whole address leads on its
/// key, and a fragment on having been typed.
fn lead(spec: &str, threads: Vec<Chat>) -> (out: Vec<Chat>)
    ensures
        out@ == led(spec@, threads@),
{
    let wanted = match handle_key(spec) {
        Some(wanted) => wanted,
        None => return threads,
    };
    let typed = spec.to_lowercase();
    let ghost all = threads@;
    let mut ranked: Vec<Aimed> = Vec::new();
    for chat in iter: threads
        invariant
            iter.seq() == all,
            contacts::key(spec@) == Some(wanted@),
            typed@ == text::lowercase(spec@),
            ranked@.len() == iter.index(),
            forall|j: int| 0 <= j < ranked@.len() ==> #[trigger] ranked@[j] == aimed(spec@, all[j]),
    {
        let empty: String = String::new();
        let handles = match &chat.handles {
            Some(handles) => handles.as_str(),
            None => empty.as_str(),
        };
        assert(handles@ == db::or_empty(text::maybe(chat.handles)));
        let theirs = match handle_key(handles) {
            Some(key) => same(key.as_str(), wanted.as_str()),
            None => false,
        };
        let inside = text_has(handles.to_lowercase().as_str(), typed.as_str());
        let rank: i64 = if theirs {
            if inside {
                0
            } else {
                1
            }
        } else if inside {
            2
        } else {
            3
        };
        ranked.push(Aimed { rank, chat });
    }
    assert(ranked@ =~= all.map_values(|chat: Chat| aimed(spec@, chat)));
    let sorted = sort(ranked);
    let ghost order = sorted@;
    let mut out: Vec<Chat> = Vec::new();
    for one in iter: sorted
        invariant
            iter.seq() == order,
            out@.len() == iter.index(),
            forall|j: int| 0 <= j < out@.len() ==> #[trigger] out@[j] == order[j].chat,
    {
        out.push(one.chat);
    }
    assert(out@ =~= order.map_values(|one: Aimed| one.chat));
    out
}

/// A conversation kept inside one bucket: the leading thread whatever it is, and
/// behind it, unless filtered threads were asked for, only threads that are not
/// filtered and only where it is not filtered itself.
pub open spec fn bucket(threads: Seq<Chat>, unknown: bool) -> Seq<Chat> {
    if !unknown && threads[0].is_filtered {
        seq![threads[0]]
    } else {
        seq![threads[0]] + unfiltered(threads.drop_first(), unknown)
    }
}

/// Those of `threads` that are not filtered, or all of them.
pub open spec fn unfiltered(threads: Seq<Chat>, unknown: bool) -> Seq<Chat>
    decreases threads.len(),
{
    if threads.len() == 0 {
        Seq::empty()
    } else if unknown || !threads.last().is_filtered {
        unfiltered(threads.drop_last(), unknown).push(threads.last())
    } else {
        unfiltered(threads.drop_last(), unknown)
    }
}

/// Keep a merged conversation inside one filtered bucket.
///
/// The leading thread is kept whatever it is: naming a conversation reaches it
/// even when Messages filters it. But nothing merges into a filtered head, so
/// whether Unknown Senders content appears never turns on which thread happens
/// to be more recently active.
pub fn one_bucket(threads: Vec<Chat>, unknown: bool) -> (out: Vec<Chat>)
    requires
        threads@.len() > 0,
    ensures
        out@ == bucket(threads@, unknown),
{
    let ghost all = threads@;
    let mut out: Vec<Chat> = Vec::new();
    let alone = !unknown && threads[0].is_filtered;
    for chat in iter: threads
        invariant
            iter.seq() == all,
            all.len() > 0,
            alone == (!unknown && all[0].is_filtered),
            iter.index() == 0 ==> out@ == Seq::<Chat>::empty(),
            iter.index() > 0 ==> out@ == (if alone {
                seq![all[0]]
            } else {
                seq![all[0]] + unfiltered(
                    all.drop_first().take(iter.index() as int - 1),
                    unknown,
                )
            }),
    {
        let ghost n = iter.index() as int;
        let ghost was = out@;
        if out.len() == 0 {
            proof {
                if n > 0 {
                    assert(was.len() > 0);
                }
            }
            out.push(chat);
            proof {
                assert(all.drop_first().take(0) =~= Seq::<Chat>::empty());
                assert(out@ =~= seq![all[0]]);
                assert(seq![all[0]] + Seq::<Chat>::empty() =~= seq![all[0]]);
            }
        } else {
            proof {
                let rest = all.drop_first();
                assert(rest.take(n).drop_last() =~= rest.take(n - 1));
                assert(rest.take(n).last() == chat);
            }
            if !alone && (unknown || !chat.is_filtered) {
                out.push(chat);
                proof {
                    let before = unfiltered(all.drop_first().take(n - 1), unknown);
                    assert((seq![all[0]] + before).push(chat) =~= seq![all[0]] + before.push(chat));
                }
            }
        }
    }
    proof {
        assert(all.drop_first().take(all.len() - 1) =~= all.drop_first());
    }
    out
}

/// What a person's threads come to, most recently active first: the thread at
/// the typed address leading, and one bucket.
pub fn by_person(spec: &str, threads: Vec<Chat>, unknown: bool) -> (out: Vec<Chat>)
    requires
        threads@.len() > 0,
    ensures
        out@ == bucket(led(spec@, threads@), unknown),
        out@.len() > 0,
{
    proof {
        leading_keeps_everything(spec@, threads@);
    }
    one_bucket(lead(spec, threads), unknown)
}

/// What a spec that names a person comes to: their own threads, or `None` where
/// they have none and the rows of chats are all there is to look at. Those are
/// the rooms they are in, which are found the way rooms are found.
pub fn their_own(spec: &str, threads: Vec<Chat>, unknown: bool) -> (out: Option<Vec<Chat>>)
    ensures
        out is None <==> threads@.len() == 0,
        out matches Some(found) ==> found@ == bucket(led(spec@, threads@), unknown) && found@.len()
            > 0,
{
    if threads.len() == 0 {
        None
    } else {
        Some(by_person(spec, threads, unknown))
    }
}

/// Leading reorders and does nothing else.
pub proof fn leading_keeps_everything(spec: Seq<char>, threads: Seq<Chat>)
    ensures
        led(spec, threads).len() == threads.len(),
        led(spec, threads).to_multiset() == threads.to_multiset(),
{
    if contacts::key(spec) is Some {
        let ranked = threads.map_values(|chat: Chat| aimed(spec, chat));
        let sorted = order::stably(ranked);
        order::sorting_keeps_everything(ranked);
        same_items_same_chats(sorted, ranked);
        assert(ranked.map_values(|one: Aimed| one.chat) =~= threads);
    }
}

proof fn same_items_same_chats(a: Seq<Aimed>, b: Seq<Aimed>)
    requires
        a.to_multiset() == b.to_multiset(),
        a.len() == b.len(),
    ensures
        a.map_values(|one: Aimed| one.chat).to_multiset() == b.map_values(
            |one: Aimed| one.chat,
        ).to_multiset(),
    decreases a.len(),
{
    broadcast use vstd::seq_lib::group_to_multiset_ensures;

    let pick = |one: Aimed| one.chat;
    if a.len() == 0 {
        assert(a.map_values(pick) =~= b.map_values(pick));
    } else {
        let last = a.last();
        assert(a.to_multiset().count(last) > 0) by {
            assert(a.contains(last)) by {
                assert(a[a.len() - 1] == last);
            }
        }
        assert(b.contains(last));
        let at = choose|at: int| 0 <= at < b.len() && b[at] == last;
        let rest = b.remove(at);
        assert(a =~= a.drop_last().push(last));
        assert(a.to_multiset() =~= a.drop_last().to_multiset().insert(last));
        assert(rest.insert(at, last) =~= b);
        vstd::seq_lib::to_multiset_insert(rest, at, last);
        assert(a.drop_last().to_multiset() =~= rest.to_multiset());
        same_items_same_chats(a.drop_last(), rest);
        assert(a.map_values(pick) =~= a.drop_last().map_values(pick).push(pick(last)));
        assert(b.map_values(pick) =~= rest.map_values(pick).insert(at, pick(last)));
        vstd::seq_lib::to_multiset_insert(rest.map_values(pick), at, pick(last));
    }
}

/// A name cannot move the aim: only an address reorders a person's threads.
pub proof fn a_name_reorders_nothing(spec: Seq<char>, threads: Seq<Chat>)
    requires
        contacts::key(spec) is None,
    ensures
        led(spec, threads) == threads,
{
}

/// An address typed in full keeps its thread at the head of the answer: where
/// one of a person's threads is at that address, the conversation leads with
/// one that is.
pub proof fn an_address_leads_with_its_own_thread(
    spec: Seq<char>,
    threads: Seq<Chat>,
    unknown: bool,
    i: int,
)
    requires
        contacts::key(spec) is Some,
        0 <= i < threads.len(),
        contacts::key(db::or_empty(text::maybe(threads[i].handles))) == contacts::key(spec),
    ensures
        bucket(led(spec, threads), unknown).len() > 0,
        contacts::key(
            db::or_empty(text::maybe(bucket(led(spec, threads), unknown)[0].handles)),
        ) == contacts::key(spec),
{
    let ranked = threads.map_values(|chat: Chat| aimed(spec, chat));
    let sorted = order::stably(ranked);
    order::sorting_keeps_everything(ranked);
    order::sorting_orders(ranked);
    broadcast use vstd::seq_lib::group_to_multiset_ensures;

    let one = ranked[i];
    assert(ranked.contains(one));
    assert(sorted.to_multiset().count(one) > 0);
    assert(sorted.contains(one));
    let k = choose|k: int| 0 <= k < sorted.len() && sorted[k] == one;
    if k > 0 {
        assert(!sorted[k].before(&sorted[0]));
    }
    assert(sorted[0].rank <= one.rank);
    let head = sorted[0];
    assert(sorted.to_multiset().count(head) > 0) by {
        assert(sorted.contains(head));
    }
    assert(ranked.contains(head));
    let j = choose|j: int| 0 <= j < ranked.len() && ranked[j] == head;
    assert(head == aimed(spec, threads[j]));
    assert(led(spec, threads)[0] == head.chat);
}

/// Without `--unknown`, a conversation never mixes what Messages filters with
/// what it does not, whichever of them leads; and the leading thread, which is
/// where a send goes, is kept either way.
pub proof fn buckets_are_never_mixed(threads: Seq<Chat>, unknown: bool, i: int)
    requires
        threads.len() > 0,
        0 <= i < bucket(threads, unknown).len(),
    ensures
        bucket(threads, unknown)[0] == threads[0],
        !unknown ==> bucket(threads, unknown)[i].is_filtered == threads[0].is_filtered,
{
    let rest = threads.drop_first();
    let kept = unfiltered(rest, unknown);
    unfiltered_are_not_filtered(rest, unknown);
    if i > 0 && !(!unknown && threads[0].is_filtered) {
        assert(bucket(threads, unknown)[i] == kept[i - 1]);
    }
}

proof fn unfiltered_are_not_filtered(threads: Seq<Chat>, unknown: bool)
    ensures
        forall|i: int|
            0 <= i < unfiltered(threads, unknown).len() && !unknown ==> !(
            #[trigger] unfiltered(threads, unknown)[i]).is_filtered,
    decreases threads.len(),
{
    if threads.len() > 0 {
        unfiltered_are_not_filtered(threads.drop_last(), unknown);
    }
}

/// With `--unknown`, a conversation is every thread its person has.
pub proof fn unknown_lets_everything_in(threads: Seq<Chat>)
    requires
        threads.len() > 0,
    ensures
        bucket(threads, true) == threads,
{
    all_are_kept(threads.drop_first());
    assert(seq![threads[0]] + threads.drop_first() =~= threads);
}

proof fn all_are_kept(threads: Seq<Chat>)
    ensures
        unfiltered(threads, true) == threads,
    decreases threads.len(),
{
    if threads.len() > 0 {
        all_are_kept(threads.drop_last());
        assert(threads.drop_last().push(threads.last()) =~= threads);
    } else {
        assert(unfiltered(threads, true) =~= threads);
    }
}

/// A chat is exactly what was typed: it is called that, or it is the one-to-one
/// of somebody who is named exactly that.
pub open spec fn is_exactly(spec: Seq<char>, chat: Chat, contacts: Seq<ContactView>) -> bool {
    let lowered = text::lowercase(spec);
    ||| text::lowercase(chat.name@) == lowered
    ||| chat.display_name is None && !chat.is_group && chat.handles is Some
        && contacts::any_reaches(contacts, chat.handles->0@, lowered, true)
}

/// Those of `chats` that are exactly what was typed.
pub open spec fn exact_chats(
    spec: Seq<char>,
    chats: Seq<Chat>,
    contacts: Seq<ContactView>,
) -> Seq<Chat>
    decreases chats.len(),
{
    if chats.len() == 0 {
        Seq::empty()
    } else if is_exactly(spec, chats.last(), contacts) {
        exact_chats(spec, chats.drop_last(), contacts).push(chats.last())
    } else {
        exact_chats(spec, chats.drop_last(), contacts)
    }
}

/// A chat with its rowid.
pub open spec fn numbered(chat: Chat) -> Seq<char> {
    chat.name@ + " ("@ + text::decimal(chat.rowid as int) + ")"@
}

/// What is said of a spec that matches several chats: how many, the first six of
/// them, and how many are not shown. A count that reaches the cap is a floor.
pub open spec fn many_chats(spec: Seq<char>, chats: Seq<Chat>) -> Seq<char> {
    let n = if chats.len() > SHOWN {
        SHOWN as nat
    } else {
        chats.len()
    };
    (if chats.len() == CHAT_MATCH_SCAN {
        "at least "@
    } else {
        Seq::<char>::empty()
    }) + text::decimal(chats.len() as int) + " chats match "@ + spec + ": "@ + text::join(
        Seq::new(n, |i: int| numbered(chats[i])),
        ", "@,
    ) + (if chats.len() > SHOWN {
        ", and "@ + text::decimal(chats.len() - SHOWN) + " more"@
    } else {
        Seq::<char>::empty()
    })
}

/// Whether a chat is exactly what was typed.
fn exactly(
    lowered: &str,
    chat: &Chat,
    contacts: &ContactIndex,
    Ghost(spec): Ghost<Seq<char>>,
) -> (yes: bool)
    requires
        lowered@ == text::lowercase(spec),
    ensures
        yes == is_exactly(spec, *chat, contacts@.contacts),
{
    if same(chat.name.to_lowercase().as_str(), lowered) {
        return true;
    }
    chat.display_name.is_none() && !chat.is_group && contacts.any_named(
        borrowed(&chat.handles),
        lowered,
    )
}

/// How many chats are exactly what was typed, and where the last of them is.
fn count_exactly(spec: &str, chats: &Vec<Chat>, contacts: &ContactIndex) -> (out: (usize, usize))
    ensures
        out.0 == exact_chats(spec@, chats@, contacts@.contacts).len(),
        out.0 > 0 ==> out.1 < chats@.len() && chats@[out.1 as int] == exact_chats(
            spec@,
            chats@,
            contacts@.contacts,
        ).last(),
{
    let lowered = spec.to_lowercase();
    let mut n: usize = 0;
    let mut at: usize = 0;
    for i in 0..chats.len()
        invariant
            lowered@ == text::lowercase(spec@),
            n <= i,
            n == exact_chats(spec@, chats@.take(i as int), contacts@.contacts).len(),
            n > 0 ==> at < i && chats@[at as int] == exact_chats(
                spec@,
                chats@.take(i as int),
                contacts@.contacts,
            ).last(),
    {
        proof {
            assert(chats@.take(i + 1).drop_last() =~= chats@.take(i as int));
            assert(chats@.take(i + 1).last() == chats@[i as int]);
        }
        if exactly(lowered.as_str(), &chats[i], contacts, Ghost(spec@)) {
            n += 1;
            at = i;
        }
    }
    assert(chats@.take(chats@.len() as int) =~= chats@);
    (n, at)
}

/// The error for a spec that matches several chats.
fn ambiguous(spec: &str, chats: &Vec<Chat>) -> (out: Error)
    ensures
        out@ == ErrorView::Other(many_chats(spec@, chats@)),
{
    let n: usize = if chats.len() > SHOWN {
        SHOWN
    } else {
        chats.len()
    };
    let mut names: Vec<String> = Vec::new();
    for i in 0..n
        invariant
            n <= chats@.len(),
            names@.len() == i,
            forall|j: int| 0 <= j < i ==> (#[trigger] names@[j])@ == numbered(chats@[j]),
    {
        let mut name: String = chats[i].name.clone();
        name.append(" (");
        name.append(decimal_of(chats[i].rowid).as_str());
        name.append(")");
        names.push(name);
    }
    assert(text::all_of(names@) =~= Seq::new(n as nat, |i: int| numbered(chats@[i])));
    let mut message: String = String::new();
    if chats.len() as u64 == CHAT_MATCH_SCAN as u64 {
        message.append("at least ");
    }
    proof {
        assert(Seq::<char>::empty() + "at least "@ =~= "at least "@);
    }
    message.append(count_of(chats.len()).as_str());
    message.append(" chats match ");
    message.append(spec);
    message.append(": ");
    message.append(joined(&names, ", ").as_str());
    if chats.len() > SHOWN {
        let mut more: String = ", and ".to_owned();
        more.append(count_of(chats.len() - SHOWN).as_str());
        more.append(" more");
        message.append(more.as_str());
    } else {
        assert(message@ + Seq::<char>::empty() =~= message@);
    }
    Error::Other(message)
}

/// What the chats a spec matches as text come to: the only one, the only one
/// that is exactly what was typed, or an error saying which they are.
pub fn by_text(spec: &str, matches: Vec<Chat>, contacts: &ContactIndex) -> (out: Result<
    Vec<Chat>,
    Error,
>)
    ensures
        matches@.len() == 0 ==> out is Err && out->Err_0@ == ErrorView::Other(
            "no chat matching "@ + spec@,
        ),
        matches@.len() == 1 ==> out == Ok::<Vec<Chat>, Error>(matches),
        matches@.len() > 1 && exact_chats(spec@, matches@, contacts@.contacts).len() == 1 ==> out
            is Ok && out->Ok_0@ == exact_chats(spec@, matches@, contacts@.contacts),
        matches@.len() > 1 && exact_chats(spec@, matches@, contacts@.contacts).len() != 1 ==> out
            is Err && out->Err_0@ == ErrorView::Other(many_chats(spec@, matches@)),
{
    if matches.len() == 0 {
        return Err(no_chat(spec));
    }
    if matches.len() == 1 {
        return Ok(matches);
    }
    let ghost all = matches@;
    let (n, at) = count_exactly(spec, &matches, contacts);
    if n == 1 {
        let mut matches = matches;
        let one = matches.swap_remove(at);
        let mut out: Vec<Chat> = Vec::new();
        out.push(one);
        assert(out@ =~= exact_chats(spec@, all, contacts@.contacts));
        return Ok(out);
    }
    Err(ambiguous(spec, &matches))
}

/// One membership of one chat.
#[derive(Debug)]
pub struct MemberRow {
    pub chat_id: i64,
    pub handle: String,
}

/// The key of each address of `people`, one after the other.
pub open spec fn keys_of(handles: Seq<Seq<char>>, contacts: Seq<ContactView>) -> Seq<Seq<char>> {
    Seq::new(handles.len(), |i: int| people::identity(handles[i], contacts))
}

/// The keys of everybody named, without repeats.
pub open spec fn wanted_keys(people: Seq<PersonSeen>, contacts: Seq<ContactView>) -> Seq<Seq<char>>
    decreases people.len(),
{
    if people.len() == 0 {
        Seq::empty()
    } else {
        add_new(
            wanted_keys(people.drop_last(), contacts),
            keys_of(people.last().handles, contacts),
        )
    }
}

/// `keys` with those of `more` that are not there yet.
pub open spec fn add_new(keys: Seq<Seq<char>>, more: Seq<Seq<char>>) -> Seq<Seq<char>>
    decreases more.len(),
{
    if more.len() == 0 {
        keys
    } else {
        let before = add_new(keys, more.drop_last());
        if before.contains(more.last()) {
            before
        } else {
            before.push(more.last())
        }
    }
}

/// The keys of the members of one chat, without repeats.
pub open spec fn member_keys(rows: Seq<MemberRow>, contacts: Seq<ContactView>, chat: i64) -> Seq<
    Seq<char>,
>
    decreases rows.len(),
{
    if rows.len() == 0 {
        Seq::empty()
    } else {
        let before = member_keys(rows.drop_last(), contacts, chat);
        let key = people::identity(rows.last().handle@, contacts);
        if rows.last().chat_id != chat || before.contains(key) {
            before
        } else {
            before.push(key)
        }
    }
}

/// The same people, in whatever order.
pub open spec fn same_people(a: Seq<Seq<char>>, b: Seq<Seq<char>>) -> bool {
    &&& forall|i: int| 0 <= i < a.len() ==> b.contains(#[trigger] a[i])
    &&& forall|i: int| 0 <= i < b.len() ==> a.contains(#[trigger] b[i])
}

/// Several people, each by their characters.
pub open spec fn seen_people(people: Seq<Person>) -> Seq<PersonSeen> {
    people.map_values(|person: Person| person@)
}

/// The keys of everybody named, or the error for naming one person twice.
///
/// Naming one person twice describes a room of one, which is a one-to-one and
/// not a room. Counted on identities rather than on rendered names, because two
/// records can carry one name and are two people.
pub fn room_members(people: &[Person], contacts: &ContactIndex) -> (out: Result<
    Vec<String>,
    Error,
>)
    ensures
        ({
            let keys = wanted_keys(seen_people(people@), contacts@.contacts);
            if keys.len() < people@.len() {
                out is Err && out->Err_0@ == ErrorView::Other(
                    "the same person named twice; a room needs different people"@,
                )
            } else {
                out is Ok && text::all_of(out->Ok_0@) == keys
            }
        }),
{
    let ghost all = seen_people(people@);
    let mut keys: Vec<String> = Vec::new();
    assert(text::all_of(keys@) =~= wanted_keys(all.take(0), contacts@.contacts));
    for i in 0..people.len()
        invariant
            all == seen_people(people@),
            text::all_of(keys@) == wanted_keys(all.take(i as int), contacts@.contacts),
    {
        proof {
            assert(all.take(i + 1).drop_last() =~= all.take(i as int));
            assert(all.take(i + 1).last() == people@[i as int]@);
        }
        let handles = &people[i].handles;
        let ghost start = text::all_of(keys@);
        let ghost more = keys_of(text::all_of(handles@), contacts@.contacts);
        assert(add_new(start, more.take(0)) =~= start);
        for j in 0..handles.len()
            invariant
                more == keys_of(text::all_of(handles@), contacts@.contacts),
                text::all_of(keys@) == add_new(start, more.take(j as int)),
        {
            proof {
                assert(more.take(j + 1).drop_last() =~= more.take(j as int));
                assert(more.take(j + 1).last() == more[j as int]);
                assert(text::all_of(handles@)[j as int] == handles@[j as int]@);
            }
            let key = person_identity(handles[j].as_str(), contacts);
            if !is_among(&keys, key.as_str()) {
                let ghost was = text::all_of(keys@);
                let ghost new = key@;
                keys.push(key);
                assert(text::all_of(keys@) =~= was.push(new));
            }
        }
        assert(more.take(more.len() as int) =~= more);
    }
    assert(all.take(all.len() as int) =~= all);
    if keys.len() < people.len() {
        return Err(Error::other("the same person named twice; a room needs different people"));
    }
    Ok(keys)
}

/// The keys of the members of one chat.
fn members_of(rows: &[MemberRow], contacts: &ContactIndex, chat: i64) -> (out: Vec<String>)
    ensures
        text::all_of(out@) == member_keys(rows@, contacts@.contacts, chat),
{
    let mut out: Vec<String> = Vec::new();
    assert(text::all_of(out@) =~= member_keys(rows@.take(0), contacts@.contacts, chat));
    for i in 0..rows.len()
        invariant
            text::all_of(out@) == member_keys(rows@.take(i as int), contacts@.contacts, chat),
    {
        proof {
            assert(rows@.take(i + 1).drop_last() =~= rows@.take(i as int));
            assert(rows@.take(i + 1).last() == rows@[i as int]);
        }
        if rows[i].chat_id == chat {
            let key = person_identity(rows[i].handle.as_str(), contacts);
            if !is_among(&out, key.as_str()) {
                let ghost was = text::all_of(out@);
                let ghost new = key@;
                out.push(key);
                assert(text::all_of(out@) =~= was.push(new));
            }
        }
    }
    assert(rows@.take(rows@.len() as int) =~= rows@);
    out
}

/// Whether every one of `a` is among `b`.
fn all_among(a: &Vec<String>, b: &Vec<String>) -> (yes: bool)
    ensures
        yes == forall|i: int|
            0 <= i < a@.len() ==> text::all_of(b@).contains(#[trigger] text::all_of(a@)[i]),
{
    for i in 0..a.len()
        invariant
            forall|j: int|
                0 <= j < i ==> text::all_of(b@).contains(#[trigger] text::all_of(a@)[j]),
    {
        if !is_among(b, a[i].as_str()) {
            assert(!text::all_of(b@).contains(text::all_of(a@)[i as int]));
            return false;
        }
    }
    true
}

/// The chats of some memberships, one for each.
pub open spec fn chat_ids(rows: Seq<MemberRow>) -> Seq<i64> {
    Seq::new(rows.len(), |i: int| rows[i].chat_id)
}

/// Those of `ids` whose members are exactly the people wanted.
pub open spec fn exact_among(
    ids: Seq<i64>,
    wanted: Seq<Seq<char>>,
    rows: Seq<MemberRow>,
    contacts: Seq<ContactView>,
) -> Seq<i64>
    decreases ids.len(),
{
    if ids.len() == 0 {
        Seq::empty()
    } else {
        let before = exact_among(ids.drop_last(), wanted, rows, contacts);
        if same_people(member_keys(rows, contacts, ids.last()), wanted) {
            before.push(ids.last())
        } else {
            before
        }
    }
}

/// The rooms whose members are exactly the people wanted, and me.
///
/// Exactly that set: there is no fallback to a room that merely contains them,
/// because answering with a conversation holding people nobody named is the
/// failure this rule exists to prevent.
pub fn exact_rooms(wanted: &Vec<String>, rows: &[MemberRow], contacts: &ContactIndex) -> (out: Vec<
    i64,
>)
    ensures
        out@ == exact_among(
            attachments::asked(chat_ids(rows@)),
            text::all_of(wanted@),
            rows@,
            contacts@.contacts,
        ),
{
    let mut ids: Vec<i64> = Vec::new();
    for i in 0..rows.len()
        invariant
            ids@.len() == i,
            forall|j: int| 0 <= j < i ==> #[trigger] ids@[j] == rows@[j].chat_id,
    {
        ids.push(rows[i].chat_id);
    }
    assert(ids@ =~= chat_ids(rows@));
    let each = ids_to_ask(&ids);
    let mut out: Vec<i64> = Vec::new();
    for i in 0..each.len()
        invariant
            out@ == exact_among(
                each@.take(i as int),
                text::all_of(wanted@),
                rows@,
                contacts@.contacts,
            ),
    {
        proof {
            assert(each@.take(i + 1).drop_last() =~= each@.take(i as int));
            assert(each@.take(i + 1).last() == each@[i as int]);
        }
        let members = members_of(rows, contacts, each[i]);
        if all_among(&members, wanted) && all_among(wanted, &members) {
            out.push(each[i]);
        }
    }
    assert(each@.take(each@.len() as int) =~= each@);
    out
}

/// Everybody's name, with `and` between each two.
pub open spec fn and_names(people: Seq<PersonSeen>) -> Seq<char> {
    text::join(Seq::new(people.len(), |i: int| people[i].name), " and "@)
}

/// The room found for some people, most recently active first, or the error
/// that there is none.
pub fn resolve_room(people: &[Person], found: Vec<Chat>) -> (out: Result<Chat, Error>)
    ensures
        found@.len() > 0 ==> out == Ok::<Chat, Error>(found@[0]),
        found@.len() == 0 ==> out is Err && out->Err_0@ == ErrorView::Other(
            "no conversation with exactly "@ + and_names(seen_people(people@)),
        ),
{
    if found.len() > 0 {
        let mut found = found;
        return Ok(found.swap_remove(0));
    }
    let mut names: Vec<String> = Vec::new();
    for i in 0..people.len()
        invariant
            names@.len() == i,
            forall|j: int| 0 <= j < i ==> (#[trigger] names@[j])@ == people@[j].name@,
    {
        names.push(people[i].name.clone());
    }
    assert(text::all_of(names@) =~= Seq::new(
        people@.len(),
        |i: int| seen_people(people@)[i].name,
    ));
    let mut message: String = "no conversation with exactly ".to_owned();
    message.append(joined(&names, " and ").as_str());
    Err(Error::Other(message))
}

/// The order of naming does not matter: the same people are the same room,
/// whoever is named first.
pub proof fn a_room_is_a_set_of_people(a: Seq<Seq<char>>, b: Seq<Seq<char>>, c: Seq<Seq<char>>)
    requires
        same_people(a, b),
    ensures
        same_people(b, a),
        same_people(c, a) <==> same_people(c, b),
{
    if same_people(c, a) {
        carried_over(c, a, b);
        carried_over(b, a, c);
    }
    if same_people(c, b) {
        carried_over(c, b, a);
        carried_over(a, b, c);
    }
}

proof fn carried_over(a: Seq<Seq<char>>, b: Seq<Seq<char>>, c: Seq<Seq<char>>)
    requires
        forall|i: int| 0 <= i < a.len() ==> b.contains(#[trigger] a[i]),
        forall|i: int| 0 <= i < b.len() ==> c.contains(#[trigger] b[i]),
    ensures
        forall|i: int| 0 <= i < a.len() ==> c.contains(#[trigger] a[i]),
{
    assert forall|i: int| 0 <= i < a.len() implies c.contains(#[trigger] a[i]) by {
        let j = choose|j: int| 0 <= j < b.len() && b[j] == a[i];
        assert(c.contains(b[j]));
    }
}

/// What several specs resolve to, one person each: the first that names nobody,
/// or more than one person, stops it.
pub open spec fn each_person(
    specs: Seq<Seq<char>>,
    known: Seq<people::Address>,
    contacts: Seq<ContactView>,
) -> Result<Seq<PersonSeen>, ErrorView>
    decreases specs.len(),
{
    if specs.len() == 0 {
        Ok(Seq::empty())
    } else {
        match each_person(specs.drop_last(), known, contacts) {
            Err(error) => Err(error),
            Ok(people) => match people::sole(specs.last(), known, contacts) {
                Ok(person) => Ok(people.push(person)),
                Err(error) => Err(error),
            },
        }
    }
}

/// One person for each of several specs. A spec that names nobody is an error
/// rather than a fallback: guessing would answer with a room the caller did not
/// describe.
pub fn resolve_people(specs: &[String], known: &[HandleRow], contacts: &ContactIndex) -> (out:
    Result<Vec<Person>, Error>)
    ensures
        (match out {
            Ok(people) => Ok(seen_people(people@)),
            Err(error) => Err(error@),
        }) == each_person(
            text::all_of(specs@),
            people::addresses(known@),
            contacts@.contacts,
        ),
{
    let ghost all = text::all_of(specs@);
    let ghost table = people::addresses(known@);
    let mut out: Vec<Person> = Vec::new();
    assert(seen_people(out@) =~= Seq::<PersonSeen>::empty());
    for i in 0..specs.len()
        invariant
            all == text::all_of(specs@),
            table == people::addresses(known@),
            each_person(all.take(i as int), table, contacts@.contacts) == Ok::<
                Seq<PersonSeen>,
                ErrorView,
            >(seen_people(out@)),
    {
        proof {
            assert(all.take(i + 1).drop_last() =~= all.take(i as int));
            assert(all.take(i + 1).last() == specs@[i as int]@);
        }
        match resolve_person(specs[i].as_str(), known, contacts) {
            Ok(person) => {
                let ghost was = seen_people(out@);
                let ghost seen = person@;
                out.push(person);
                assert(seen_people(out@) =~= was.push(seen));
            },
            Err(error) => {
                proof {
                    errors_stay(all, table, contacts@.contacts, i + 1);
                }
                return Err(error);
            },
        }
    }
    assert(all.take(all.len() as int) =~= all);
    Ok(out)
}

proof fn errors_stay(
    specs: Seq<Seq<char>>,
    known: Seq<people::Address>,
    contacts: Seq<ContactView>,
    n: int,
)
    requires
        0 <= n <= specs.len(),
        each_person(specs.take(n), known, contacts) is Err,
    ensures
        each_person(specs, known, contacts) == each_person(specs.take(n), known, contacts),
    decreases specs.len(),
{
    if n < specs.len() {
        assert(specs.drop_last().take(n) =~= specs.take(n));
        errors_stay(specs.drop_last(), known, contacts, n);
    } else {
        assert(specs.take(n) =~= specs);
    }
}

/// How a conversation was named.
#[derive(Debug, Clone, Copy, PartialEq, Eq, Structural)]
pub enum Naming {
    /// By one spec, which is a person, a thread, or text to match.
    Alone,
    /// By several, each of them one person in a room.
    Together,
}

/// How these specs name a conversation. Naming nothing is an error.
pub fn naming(specs: &[String]) -> (out: Result<Naming, Error>)
    ensures
        specs@.len() == 0 ==> out is Err && out->Err_0@ == ErrorView::Other(
            "no conversation named"@,
        ),
        specs@.len() == 1 ==> out == Ok::<Naming, Error>(Naming::Alone),
        specs@.len() > 1 ==> out == Ok::<Naming, Error>(Naming::Together),
{
    if specs.len() == 0 {
        Err(Error::other("no conversation named"))
    } else if specs.len() == 1 {
        Ok(Naming::Alone)
    } else {
        Ok(Naming::Together)
    }
}

/// The thread a message to a conversation is sent to, which leads it.
pub fn leading(found: Vec<Chat>) -> (out: Chat)
    requires
        found@.len() > 0,
    ensures
        out == found@[0],
{
    let mut found = found;
    found.swap_remove(0)
}

/// A chat is at an address.
pub open spec fn is_at(chat: Chat, spec: Seq<char>) -> bool {
    contacts::key(db::or_empty(text::maybe(chat.handles))) == contacts::key(spec)
}

/// A chat's address has what was typed in it.
pub open spec fn has_typed(chat: Chat, spec: Seq<char>) -> bool {
    text::contains(
        text::lowercase(db::or_empty(text::maybe(chat.handles))),
        text::lowercase(spec),
    )
}

/// No thread fits what was typed better than the one that leads: being at the address
/// comes first, and having the text in it second.
pub proof fn the_best_fit_leads(spec: Seq<char>, threads: Seq<Chat>, i: int)
    requires
        contacts::key(spec) is Some,
        0 <= i < threads.len(),
    ensures
        led(spec, threads).len() == threads.len(),
        is_at(threads[i], spec) ==> is_at(led(spec, threads)[0], spec),
        is_at(threads[i], spec) && has_typed(threads[i], spec) ==> has_typed(
            led(spec, threads)[0],
            spec,
        ),
        has_typed(threads[i], spec) && !is_at(led(spec, threads)[0], spec) ==> has_typed(
            led(spec, threads)[0],
            spec,
        ),
{
    let ranked = threads.map_values(|chat: Chat| aimed(spec, chat));
    let sorted = order::stably(ranked);
    order::sorting_keeps_everything(ranked);
    order::sorting_orders(ranked);
    let one = ranked[i];
    let head = sorted[0];
    order::sorting_keeps_each(ranked, one);
    order::sorting_keeps_each(ranked, head);
    let k = choose|k: int| 0 <= k < sorted.len() && sorted[k] == one;
    if k > 0 {
        assert(!sorted[k].before(&sorted[0]));
    }
    assert(head.rank <= one.rank);
    assert(sorted.contains(head));
    let j = choose|j: int| 0 <= j < ranked.len() && ranked[j] == head;
    assert(head == aimed(spec, threads[j]));
    assert(led(spec, threads)[0] == threads[j]);
    assert(one == aimed(spec, threads[i]));
}

/// A number is the thread it numbers, whoever has it in their address.
pub proof fn a_number_is_a_thread(
    n: i64,
    known: Seq<people::Address>,
    rooms: Seq<Seq<char>>,
    contacts: Seq<ContactView>,
)
    requires
        n >= 0,
    ensures
        planned(text::decimal(n as int), known, rooms, contacts) == Ok::<PlanSeen, ErrorView>(
            PlanSeen::Rowid(n),
        ),
{
    text::a_number_reads_back(n as nat);
}

/// One person who is named is looked for as a person, and several of whom one is in
/// Contacts are never picked from, unless a room is called exactly that. What names
/// nobody, or only pieces of unknown addresses, is text to look for.
pub proof fn a_person_comes_before_a_room(
    spec: Seq<char>,
    known: Seq<people::Address>,
    rooms: Seq<Seq<char>>,
    contacts: Seq<ContactView>,
)
    requires
        !text::all_digits(spec),
        text::trim(spec).len() > 0,
    ensures
        planned(spec, known, rooms, contacts) matches Ok(PlanSeen::Person(person)) ==> people::sole(
            spec,
            known,
            contacts,
        ) == Ok::<PersonSeen, ErrorView>(person),
        planned(spec, known, rooms, contacts) matches Err(error) ==> people::sole(
            spec,
            known,
            contacts,
        ) == Err::<PersonSeen, ErrorView>(error),
        people::sole(spec, known, contacts) is Ok && (forall|i: int|
            0 <= i < rooms.len() ==> text::lowercase(#[trigger] rooms[i]) != text::lowercase(spec))
            ==> planned(spec, known, rooms, contacts) is Ok && planned(
            spec,
            known,
            rooms,
            contacts,
        )->Ok_0 is Person,
        (exists|i: int|
            0 <= i < rooms.len() && text::lowercase(#[trigger] rooms[i]) == text::lowercase(spec))
            ==> planned(spec, known, rooms, contacts) == Ok::<PlanSeen, ErrorView>(PlanSeen::Text),
        people::named(spec, known, contacts).len() == 0 ==> planned(spec, known, rooms, contacts)
            == Ok::<PlanSeen, ErrorView>(PlanSeen::Text),
        planned(spec, known, rooms, contacts) is Err <==> people::named(spec, known, contacts).len()
            > 1 && any_contact(people::named(spec, known, contacts)) && !names_a_room(spec, rooms),
{
}

proof fn unfiltered_keeps(threads: Seq<Chat>, unknown: bool, i: int)
    requires
        0 <= i < threads.len(),
        unknown || !threads[i].is_filtered,
    ensures
        unfiltered(threads, unknown).contains(threads[i]),
    decreases threads.len(),
{
    let out = unfiltered(threads, unknown);
    if i < threads.len() - 1 {
        let before = unfiltered(threads.drop_last(), unknown);
        assert(threads.drop_last()[i] == threads[i]);
        unfiltered_keeps(threads.drop_last(), unknown, i);
        let k = choose|k: int| 0 <= k < before.len() && before[k] == threads[i];
        assert(out[k] == threads[i]);
    } else {
        assert(out[out.len() - 1] == threads[i]);
    }
}

/// Where the thread that leads is not filtered, every other that is not is part of the
/// conversation too.
pub proof fn a_conversation_is_whole(threads: Seq<Chat>, unknown: bool, i: int)
    requires
        0 <= i < threads.len(),
        !threads[0].is_filtered,
        !threads[i].is_filtered,
    ensures
        bucket(threads, unknown).contains(threads[i]),
{
    let out = bucket(threads, unknown);
    if i == 0 {
        assert(out[0] == threads[0]);
    } else {
        let rest = threads.drop_first();
        assert(rest[i - 1] == threads[i]);
        unfiltered_keeps(rest, unknown, i - 1);
        let kept = unfiltered(rest, unknown);
        let k = choose|k: int| 0 <= k < kept.len() && kept[k] == threads[i];
        assert(out[k + 1] == threads[i]);
    }
}

/// What a spec settles on among several chats is what is called that, case aside, and
/// the unnamed one-to-one of somebody whose whole name it is; and every one of those.
pub proof fn an_exact_name_settles(
    spec: Seq<char>,
    chats: Seq<Chat>,
    contacts: Seq<ContactView>,
    chat: Chat,
)
    ensures
        exact_chats(spec, chats, contacts).contains(chat) <==> chats.contains(chat) && (
        text::lowercase(chat.name@) == text::lowercase(spec) || (chat.display_name is None
            && !chat.is_group && chat.handles is Some && exists|i: int|
            0 <= i < text::split(chat.handles->0@, ',').len() && contacts::held(
                contacts,
                #[trigger] text::split(chat.handles->0@, ',')[i],
            ) is Some && contacts::held(
                contacts,
                text::split(chat.handles->0@, ',')[i],
            )->0.named(text::lowercase(spec)))),
    decreases chats.len(),
{
    let lowered = text::lowercase(spec);
    if chat.handles is Some {
        let pieces = text::split(chat.handles->0@, ',');
        if contacts::any_reaches(contacts, chat.handles->0@, lowered, true) {
            let i = choose|i: int|
                0 <= i < pieces.len() && contacts::reaches(
                    contacts::held(contacts, #[trigger] pieces[i]),
                    lowered,
                    true,
                );
            assert(contacts::held(contacts, pieces[i]) is Some);
        }
        if exists|i: int|
            0 <= i < pieces.len() && contacts::held(contacts, #[trigger] pieces[i]) is Some
                && contacts::held(contacts, pieces[i])->0.named(lowered) {
            let i = choose|i: int|
                0 <= i < pieces.len() && contacts::held(contacts, #[trigger] pieces[i]) is Some
                    && contacts::held(contacts, pieces[i])->0.named(lowered);
            assert(contacts::reaches(contacts::held(contacts, pieces[i]), lowered, true));
        }
    }
    if chats.len() > 0 {
        let rest = chats.drop_last();
        let before = exact_chats(spec, rest, contacts);
        let all = exact_chats(spec, chats, contacts);
        an_exact_name_settles(spec, rest, contacts, chat);
        if all.contains(chat) {
            let k = choose|k: int| 0 <= k < all.len() && all[k] == chat;
            if k < before.len() {
                assert(before[k] == chat);
                let i = choose|i: int| 0 <= i < rest.len() && rest[i] == chat;
                assert(chats[i] == chat);
            } else {
                assert(chats[chats.len() - 1] == chat);
            }
        }
        if chats.contains(chat) && is_exactly(spec, chat, contacts) {
            let i = choose|i: int| 0 <= i < chats.len() && chats[i] == chat;
            if i < rest.len() {
                assert(rest[i] == chat);
                let k = choose|k: int| 0 <= k < before.len() && before[k] == chat;
                assert(all[k] == chat);
            } else {
                assert(all[all.len() - 1] == chat);
            }
        }
    }
}

/// What is said of several chats says how many match, at least where the count is all
/// that was looked at, names each of the first six with its number, and counts the rest.
pub proof fn several_chats_are_counted_and_named(spec: Seq<char>, chats: Seq<Chat>, i: int)
    requires
        0 <= i < chats.len(),
    ensures
        chats.len() != CHAT_MATCH_SCAN ==> (text::decimal(chats.len() as int) + " chats match "@
            + spec).is_prefix_of(many_chats(spec, chats)),
        chats.len() == CHAT_MATCH_SCAN ==> ("at least "@ + text::decimal(chats.len() as int)
            + " chats match "@ + spec).is_prefix_of(many_chats(spec, chats)),
        i < 6 ==> text::contains(
            many_chats(spec, chats),
            chats[i].name@ + " ("@ + text::decimal(chats[i].rowid as int) + ")"@,
        ),
        chats.len() > 6 ==> ("and "@ + text::decimal(chats.len() - 6)
            + " more"@).is_suffix_of(many_chats(spec, chats)),
{
    let n = if chats.len() > SHOWN {
        SHOWN as nat
    } else {
        chats.len()
    };
    let all = many_chats(spec, chats);
    let names = Seq::new(n, |j: int| numbered(chats[j]));
    let listed = text::join(names, ", "@);
    let least = if chats.len() == CHAT_MATCH_SCAN {
        "at least "@
    } else {
        Seq::<char>::empty()
    };
    let tail = if chats.len() > SHOWN {
        ", and "@ + text::decimal(chats.len() - SHOWN) + " more"@
    } else {
        Seq::<char>::empty()
    };
    let head = least + text::decimal(chats.len() as int) + " chats match "@ + spec;
    let rest = ": "@ + listed + tail;
    assert(all =~= head + rest);
    assert(all.take(head.len() as int) =~= head);
    let plain = text::decimal(chats.len() as int) + " chats match "@ + spec;
    if chats.len() != CHAT_MATCH_SCAN {
        assert(head =~= plain);
    } else {
        assert(head =~= "at least "@ + text::decimal(chats.len() as int) + " chats match "@ + spec);
    }
    let from = (head + ": "@).len() as int;
    assert(all.subrange(from, from + listed.len()) =~= listed);
    assert(text::occurs_at(all, listed, from));
    if i < 6 {
        text::a_part_is_held(names, ", "@, i);
        text::holding_carries(all, listed, names[i]);
    }
    if chats.len() > 6 {
        reveal_strlit(", and ");
        reveal_strlit("and ");
        let more = "and "@ + text::decimal(chats.len() - 6) + " more"@;
        assert(tail =~= seq![',', ' '] + more);
        assert(all.skip(all.len() - more.len()) =~= more);
    }
}

proof fn adding_keeps(keys: Seq<Seq<char>>, more: Seq<Seq<char>>, key: Seq<char>)
    ensures
        add_new(keys, more).contains(key) <==> keys.contains(key) || more.contains(key),
    decreases more.len(),
{
    if more.len() > 0 {
        let before = add_new(keys, more.drop_last());
        let all = add_new(keys, more);
        adding_keeps(keys, more.drop_last(), key);
        if before.contains(key) {
            let k = choose|k: int| 0 <= k < before.len() && before[k] == key;
            assert(all[k] == key);
        }
        if more.contains(key) {
            let k = choose|k: int| 0 <= k < more.len() && more[k] == key;
            if k < more.len() - 1 {
                assert(more.drop_last()[k] == key);
            } else if !before.contains(key) {
                assert(all[all.len() - 1] == key);
            }
        }
        if more.drop_last().contains(key) {
            let k = choose|k: int| 0 <= k < more.len() - 1 && more.drop_last()[k] == key;
            assert(more[k] == key);
        }
        if all.contains(key) && !before.contains(key) {
            let k = choose|k: int| 0 <= k < all.len() && all[k] == key;
            if k < before.len() {
                assert(before[k] == key);
            }
            assert(more[more.len() - 1] == key);
        }
    }
}

/// Somebody of several has an address of this person's.
pub open spec fn is_named(
    people: Seq<PersonSeen>,
    contacts: Seq<ContactView>,
    who: Seq<char>,
) -> bool {
    exists|i: int, j: int|
        0 <= i < people.len() && 0 <= j < people[i].handles.len() && people::identity(
            #[trigger] people[i].handles[j],
            contacts,
        ) == who
}

/// Everybody who was named is wanted in the room, and nobody else.
pub proof fn everybody_named_is_wanted(
    people: Seq<PersonSeen>,
    contacts: Seq<ContactView>,
    who: Seq<char>,
)
    ensures
        wanted_keys(people, contacts).contains(who) <==> is_named(people, contacts, who),
    decreases people.len(),
{
    if people.len() > 0 {
        let rest = people.drop_last();
        let last = people.last().handles;
        let more = keys_of(last, contacts);
        everybody_named_is_wanted(rest, contacts, who);
        adding_keeps(wanted_keys(rest, contacts), more, who);
        if is_named(rest, contacts, who) {
            let (i, j) = choose|i: int, j: int|
                0 <= i < rest.len() && 0 <= j < rest[i].handles.len() && people::identity(
                    #[trigger] rest[i].handles[j],
                    contacts,
                ) == who;
            assert(people::identity(people[i].handles[j], contacts) == who);
        }
        if more.contains(who) {
            let j = choose|j: int| 0 <= j < more.len() && more[j] == who;
            assert(people::identity(people[people.len() - 1].handles[j], contacts) == who);
        }
        if is_named(people, contacts, who) {
            let (i, j) = choose|i: int, j: int|
                0 <= i < people.len() && 0 <= j < people[i].handles.len() && people::identity(
                    #[trigger] people[i].handles[j],
                    contacts,
                ) == who;
            if i < rest.len() {
                assert(people::identity(rest[i].handles[j], contacts) == who);
            } else {
                assert(more[j] == who);
            }
        }
    }
}

/// Somebody is in a chat: one of its memberships is theirs.
pub open spec fn is_member(
    rows: Seq<MemberRow>,
    contacts: Seq<ContactView>,
    chat: i64,
    who: Seq<char>,
) -> bool {
    exists|i: int|
        0 <= i < rows.len() && (#[trigger] rows[i]).chat_id == chat && people::identity(
            rows[i].handle@,
            contacts,
        ) == who
}

proof fn members_are_those_in_it(
    rows: Seq<MemberRow>,
    contacts: Seq<ContactView>,
    chat: i64,
    who: Seq<char>,
)
    ensures
        member_keys(rows, contacts, chat).contains(who) <==> is_member(rows, contacts, chat, who),
    decreases rows.len(),
{
    if rows.len() > 0 {
        let rest = rows.drop_last();
        let before = member_keys(rest, contacts, chat);
        let all = member_keys(rows, contacts, chat);
        members_are_those_in_it(rest, contacts, chat, who);
        if is_member(rest, contacts, chat, who) {
            let i = choose|i: int|
                0 <= i < rest.len() && (#[trigger] rest[i]).chat_id == chat && people::identity(
                    rest[i].handle@,
                    contacts,
                ) == who;
            assert(rows[i].chat_id == chat);
        }
        if before.contains(who) {
            let k = choose|k: int| 0 <= k < before.len() && before[k] == who;
            assert(all[k] == who);
        }
        if all.contains(who) && !before.contains(who) {
            let k = choose|k: int| 0 <= k < all.len() && all[k] == who;
            if k < before.len() {
                assert(before[k] == who);
            }
            assert(rows[rows.len() - 1].chat_id == chat);
        }
        if is_member(rows, contacts, chat, who) {
            let i = choose|i: int|
                0 <= i < rows.len() && (#[trigger] rows[i]).chat_id == chat && people::identity(
                    rows[i].handle@,
                    contacts,
                ) == who;
            if i < rest.len() {
                assert(rest[i].chat_id == chat);
            } else if !before.contains(who) {
                assert(all[all.len() - 1] == who);
            }
        }
    }
}

/// Everybody in a chat is wanted, and everybody wanted is in it.
pub open spec fn holds_exactly(
    rows: Seq<MemberRow>,
    contacts: Seq<ContactView>,
    chat: i64,
    wanted: Seq<Seq<char>>,
) -> bool {
    forall|who: Seq<char>|
        #[trigger] is_member(rows, contacts, chat, who) <==> wanted.contains(who)
}

proof fn the_same_people_are_in_it(
    rows: Seq<MemberRow>,
    contacts: Seq<ContactView>,
    chat: i64,
    wanted: Seq<Seq<char>>,
)
    ensures
        same_people(member_keys(rows, contacts, chat), wanted) <==> holds_exactly(
            rows,
            contacts,
            chat,
            wanted,
        ),
{
    let keys = member_keys(rows, contacts, chat);
    if same_people(keys, wanted) {
        assert forall|who: Seq<char>|
            #[trigger] is_member(rows, contacts, chat, who) <==> wanted.contains(who) by {
            members_are_those_in_it(rows, contacts, chat, who);
            if keys.contains(who) {
                let k = choose|k: int| 0 <= k < keys.len() && keys[k] == who;
                assert(wanted.contains(keys[k]));
            }
            if wanted.contains(who) {
                let k = choose|k: int| 0 <= k < wanted.len() && wanted[k] == who;
                assert(keys.contains(wanted[k]));
            }
        }
    }
    if holds_exactly(rows, contacts, chat, wanted) {
        assert forall|i: int| 0 <= i < keys.len() implies wanted.contains(#[trigger] keys[i]) by {
            members_are_those_in_it(rows, contacts, chat, keys[i]);
            assert(keys.contains(keys[i]));
            assert(is_member(rows, contacts, chat, keys[i]));
        }
        assert forall|i: int| 0 <= i < wanted.len() implies keys.contains(
            #[trigger] wanted[i],
        ) by {
            members_are_those_in_it(rows, contacts, chat, wanted[i]);
            assert(wanted.contains(wanted[i]));
            assert(is_member(rows, contacts, chat, wanted[i]));
        }
    }
}

/// A room is found for some people if and only if everybody in it is one of them and
/// every one of them is in it.
pub proof fn a_room_is_found_by_exactly_its_people(
    ids: Seq<i64>,
    wanted: Seq<Seq<char>>,
    rows: Seq<MemberRow>,
    contacts: Seq<ContactView>,
    chat: i64,
)
    ensures
        exact_among(ids, wanted, rows, contacts).contains(chat) <==> ids.contains(chat)
            && holds_exactly(rows, contacts, chat, wanted),
    decreases ids.len(),
{
    if ids.len() > 0 {
        let rest = ids.drop_last();
        let before = exact_among(rest, wanted, rows, contacts);
        let all = exact_among(ids, wanted, rows, contacts);
        a_room_is_found_by_exactly_its_people(rest, wanted, rows, contacts, chat);
        the_same_people_are_in_it(rows, contacts, ids.last(), wanted);
        if all.contains(chat) {
            let k = choose|k: int| 0 <= k < all.len() && all[k] == chat;
            if k < before.len() {
                assert(before[k] == chat);
                let i = choose|i: int| 0 <= i < rest.len() && rest[i] == chat;
                assert(ids[i] == chat);
            } else {
                assert(ids[ids.len() - 1] == chat);
            }
        }
        if ids.contains(chat) && holds_exactly(rows, contacts, chat, wanted) {
            let i = choose|i: int| 0 <= i < ids.len() && ids[i] == chat;
            if i < rest.len() {
                assert(rest[i] == chat);
                let k = choose|k: int| 0 <= k < before.len() && before[k] == chat;
                assert(all[k] == chat);
            } else {
                assert(all[all.len() - 1] == chat);
            }
        }
    }
}

/// Several specs resolve to as many people, each of them whom their own spec names.
pub proof fn each_spec_is_its_own_person(
    specs: Seq<Seq<char>>,
    known: Seq<people::Address>,
    contacts: Seq<ContactView>,
    i: int,
)
    requires
        0 <= i < specs.len(),
    ensures
        each_person(specs, known, contacts) matches Ok(people) ==> people.len() == specs.len()
            && people::sole(specs[i], known, contacts) == Ok::<PersonSeen, ErrorView>(people[i]),
        people::sole(specs[i], known, contacts) is Err ==> each_person(specs, known, contacts) is Err,
    decreases specs.len(),
{
    let rest = specs.drop_last();
    if i < rest.len() {
        assert(rest[i] == specs[i]);
        each_spec_is_its_own_person(rest, known, contacts, i);
    } else if rest.len() > 0 {
        each_spec_is_its_own_person(rest, known, contacts, 0);
    }
}

/// Everybody is named where no room was found for them.
pub proof fn everybody_is_named(people: Seq<PersonSeen>, i: int)
    requires
        0 <= i < people.len(),
    ensures
        text::contains(and_names(people), people[i].name),
{
    text::a_part_is_held(Seq::new(people.len(), |j: int| people[j].name), " and "@, i);
}

/// Somebody is in Contacts exactly where an address of theirs is on a record.
pub proof fn a_contact_is_told_by_its_record(handle: Seq<char>, contacts: Seq<ContactView>)
    ensures
        "contact:"@.is_prefix_of(people::identity(handle, contacts)) <==> contacts::held(
            contacts,
            handle,
        ) is Some,
{
    reveal_strlit("contact:");
    reveal_strlit("handle:");
    let who = people::identity(handle, contacts);
    if contacts::held(contacts, handle) is Some {
        assert(who.take(8) =~= "contact:"@);
    } else {
        assert(who[0] == 'h');
        if "contact:"@.is_prefix_of(who) {
            assert(who.subrange(0, 8)[0] == who[0]);
            assert("contact:"@[0] == 'c');
        }
    }
}

} // verus!
