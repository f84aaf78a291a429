//! Who a name means: people, and every address Messages knows them by.
use vstd::prelude::*;

use crate::contacts::{self, ContactIndex, ContactView, exactly_named, handle_key};
use crate::order::{self, is_text_before};
use crate::text::{self, borrowed, copied, count_of, joined, same, text_has, trim_text};
use crate::{Error, ErrorView};

verus! {

/// One person, and every address Messages knows them by.
///
/// A contact is not a handle. The same person arrives as a phone number in one
/// conversation and an email address in another, and Messages keeps a separate
/// `handle` row for each — which is why searching "what did they say" cannot be
/// a search of one handle, or of one conversation.
#[derive(Debug, Clone, PartialEq, Eq)]
pub struct Person {
    /// What to call them: the contact name when there is one, else the address.
    pub name: String,
    /// The name their Contacts record is filed under, when a nickname is being
    /// shown instead of it. Never displayed; naming it exactly settles a tie
    /// the way the shown name does.
    pub filed_as: Option<String>,
    /// `handle.rowid` for every address that resolves to this person.
    pub handle_ids: Vec<i64>,
    /// The addresses themselves, for saying who was matched.
    pub handles: Vec<String>,
}

/// A [`Person`], by its characters.
#[verifier::ext_equal]
pub struct PersonSeen {
    pub name: Seq<char>,
    pub filed_as: Option<Seq<char>>,
    pub handle_ids: Seq<i64>,
    pub handles: Seq<Seq<char>>,
}

impl View for Person {
    type V = PersonSeen;

    open spec fn view(&self) -> PersonSeen {
        PersonSeen {
            name: self.name@,
            filed_as: text::maybe(self.filed_as),
            handle_ids: self.handle_ids@,
            handles: text::all_of(self.handles@),
        }
    }
}

/// Whose messages a person filter keeps.
#[derive(Debug, Clone, Copy, PartialEq, Eq, Structural)]
pub enum Sender {
    /// Only what they sent — `--from`.
    Only,
    /// What they sent, plus what I sent in a conversation that is just the two
    /// of us — `--with`.
    ///
    /// My own messages in a group are left out on purpose: they were addressed
    /// to the room, not to this person.
    BothWays,
}

/// One person, and which direction of the traffic is wanted.
pub struct PersonFilter<'a> {
    pub person: &'a Person,
    pub sender: Sender,
}

/// One row of the `handle` table.
#[derive(Debug)]
pub struct HandleRow {
    pub rowid: i64,
    pub handle: String,
}

/// One address, by its characters.
#[verifier::ext_equal]
pub struct Address {
    pub rowid: i64,
    pub handle: Seq<char>,
}

impl View for HandleRow {
    type V = Address;

    open spec fn view(&self) -> Address {
        Address { rowid: self.rowid, handle: self.handle@ }
    }
}

/// Several rows, each by its characters.
pub open spec fn addresses(rows: Seq<HandleRow>) -> Seq<Address> {
    rows.map_values(|row: HandleRow| row@)
}

/// Who an address belongs to, as a key two addresses can share: the Contacts
/// record where there is one, and the comparable form of the address otherwise.
pub open spec fn identity(handle: Seq<char>, contacts: Seq<ContactView>) -> Seq<char> {
    match contacts::held(contacts, handle) {
        Some(contact) => "contact:"@ + contact.id,
        None => "handle:"@ + (match contacts::key(handle) {
            Some(key) => key,
            None => handle,
        }),
    }
}

/// Who an address belongs to, as a key two addresses can share.
///
/// The Contacts record where there is one, because a phone number and an email
/// address on one record are one person. The normalized handle otherwise, which
/// is the most that can be said without a record to join them by: two shapes of
/// one unknown number are still one person.
pub fn person_identity(handle: &str, contacts: &ContactIndex) -> (out: String)
    ensures
        out@ == identity(handle@, contacts@.contacts),
{
    match contacts.contact(Some(handle)) {
        Some(contact) => {
            let mut out: String = "contact:".to_owned();
            out.append(contact.id.as_str());
            out
        },
        None => {
            let mut out: String = "handle:".to_owned();
            match handle_key(handle) {
                Some(key) => out.append(key.as_str()),
                None => out.append(handle),
            }
            out
        },
    }
}

/// An address is exactly the one typed, whatever shape either is written in.
pub open spec fn is_typed(spec: Seq<char>, handle: Seq<char>) -> bool {
    contacts::key(text::trim(spec)) is Some && contacts::key(handle) == contacts::key(
        text::trim(spec),
    )
}

/// An address has the typed text in it, or belongs to somebody who answers to
/// it.
pub open spec fn is_like(spec: Seq<char>, handle: Seq<char>, contacts: Seq<ContactView>) -> bool {
    let lowered = text::lowercase(text::trim(spec));
    (contacts::held(contacts, handle) is Some && contacts::held(contacts, handle)->0.answers(
        lowered,
    )) || text::contains(text::lowercase(handle), lowered)
}

/// Some address is exactly the one typed.
pub open spec fn some_typed(spec: Seq<char>, known: Seq<Address>) -> bool {
    exists|i: int| 0 <= i < known.len() && is_typed(spec, #[trigger] known[i].handle)
}

/// An address the typed text picks out: the one typed where there is one, and
/// otherwise every one that is like it.
pub open spec fn picks(
    spec: Seq<char>,
    exact: bool,
    handle: Seq<char>,
    contacts: Seq<ContactView>,
) -> bool {
    if exact {
        is_typed(spec, handle)
    } else {
        is_like(spec, handle, contacts)
    }
}

/// Who the addresses that are picked out belong to, one for each.
pub open spec fn owners(
    spec: Seq<char>,
    exact: bool,
    known: Seq<Address>,
    contacts: Seq<ContactView>,
) -> Seq<Seq<char>>
    decreases known.len(),
{
    if known.len() == 0 {
        Seq::empty()
    } else {
        let before = owners(spec, exact, known.drop_last(), contacts);
        if picks(spec, exact, known.last().handle, contacts) {
            before.push(identity(known.last().handle, contacts))
        } else {
            before
        }
    }
}

/// Somebody is matched: one of their addresses is picked out.
pub open spec fn matched(
    spec: Seq<char>,
    known: Seq<Address>,
    contacts: Seq<ContactView>,
    who: Seq<char>,
) -> bool {
    owners(spec, some_typed(spec, known), known, contacts).contains(who)
}

/// Somebody matched, under the key that tells people apart.
#[verifier::ext_equal]
pub struct Candidate {
    pub identity: Seq<char>,
    pub person: PersonSeen,
}

/// Where somebody is among `people`.
pub open spec fn seat(people: Seq<Candidate>, who: Seq<char>) -> Option<nat>
    decreases people.len(),
{
    if people.len() == 0 {
        None
    } else {
        match seat(people.drop_last(), who) {
            Some(at) => Some(at),
            None => if people.last().identity == who {
                Some((people.len() - 1) as nat)
            } else {
                None
            },
        }
    }
}

/// How many of `people` stay ahead of somebody new, in the order of their keys.
pub open spec fn new_seat(people: Seq<Candidate>, who: Seq<char>) -> nat
    decreases people.len(),
{
    if people.len() == 0 || !order::text_before(who, people.last().identity) {
        people.len()
    } else {
        new_seat(people.drop_last(), who)
    }
}

/// Somebody at their first address.
pub open spec fn introduced(address: Address, contacts: Seq<ContactView>) -> Candidate {
    let contact = contacts::held(contacts, address.handle);
    Candidate {
        identity: identity(address.handle, contacts),
        person: PersonSeen {
            name: match contact {
                Some(contact) => contact.name,
                None => address.handle,
            },
            filed_as: match contact {
                Some(contact) => contact.filed_as,
                None => None,
            },
            handle_ids: seq![address.rowid],
            handles: seq![address.handle],
        },
    }
}

/// Somebody with one more address.
pub open spec fn also_at(candidate: Candidate, address: Address) -> Candidate {
    Candidate {
        person: PersonSeen {
            handle_ids: candidate.person.handle_ids.push(address.rowid),
            handles: candidate.person.handles.push(address.handle),
            ..candidate.person
        },
        ..candidate
    }
}

/// Everybody matched among the first `n` addresses, in the order of their keys,
/// each with every address they have among them.
pub open spec fn gathered(
    spec: Seq<char>,
    known: Seq<Address>,
    contacts: Seq<ContactView>,
    n: nat,
) -> Seq<Candidate>
    decreases n,
{
    if n == 0 {
        Seq::empty()
    } else {
        let people = gathered(spec, known, contacts, (n - 1) as nat);
        let address = known[n - 1];
        let who = identity(address.handle, contacts);
        if !matched(spec, known, contacts, who) {
            people
        } else {
            match seat(people, who) {
                Some(at) => people.update(at as int, also_at(people[at as int], address)),
                None => people.insert(new_seat(people, who) as int, introduced(address, contacts)),
            }
        }
    }
}

/// Those of `people` who are named exactly `needle`.
pub open spec fn exactly_so(people: Seq<Candidate>, needle: Seq<char>) -> Seq<Candidate>
    decreases people.len(),
{
    if people.len() == 0 {
        Seq::empty()
    } else if contacts::exact_name(
        people.last().person.name,
        people.last().person.filed_as,
        needle,
    ) {
        exactly_so(people.drop_last(), needle).push(people.last())
    } else {
        exactly_so(people.drop_last(), needle)
    }
}

/// Everyone a spec could name: everybody matched, or the one whose whole name
/// it is where that settles a tie.
pub open spec fn named(
    spec: Seq<char>,
    known: Seq<Address>,
    contacts: Seq<ContactView>,
) -> Seq<Candidate> {
    let people = gathered(spec, known, contacts, known.len());
    let exact = exactly_so(people, text::lowercase(text::trim(spec)));
    if people.len() > 1 && exact.len() == 1 {
        exact
    } else {
        people
    }
}

/// Somebody matched, and the key that tells them apart.
#[derive(Debug)]
pub struct Match {
    pub identity: String,
    pub person: Person,
}

impl View for Match {
    type V = Candidate;

    open spec fn view(&self) -> Candidate {
        Candidate { identity: self.identity@, person: self.person@ }
    }
}

/// Several matches, each by its characters.
pub open spec fn candidates(matches: Seq<Match>) -> Seq<Candidate> {
    matches.map_values(|m: Match| m@)
}

/// Whether an address is exactly the one typed.
fn typed(wanted: &Option<String>, handle: &str) -> (yes: bool)
    ensures
        yes == (wanted is Some && contacts::key(handle@) == Some(wanted->0@)),
{
    match (wanted, handle_key(handle)) {
        (Some(wanted), Some(key)) => same(wanted.as_str(), key.as_str()),
        _ => false,
    }
}

/// Whether an address has the typed text in it, or belongs to somebody who
/// answers to it.
fn like(lowered: &str, handle: &str, contacts: &ContactIndex) -> (yes: bool)
    ensures
        yes == ((contacts::held(contacts@.contacts, handle@) is Some && contacts::held(
            contacts@.contacts,
            handle@,
        )->0.answers(lowered@)) || text::contains(text::lowercase(handle@), lowered@)),
{
    if let Some(contact) = contacts.contact(Some(handle)) {
        if contact.answers_to(lowered) {
            return true;
        }
    }
    text_has(handle.to_lowercase().as_str(), lowered)
}

/// Whether one of `texts` is `wanted`.
pub(crate) fn is_among(texts: &Vec<String>, wanted: &str) -> (yes: bool)
    ensures
        yes == text::all_of(texts@).contains(wanted@),
{
    for i in 0..texts.len()
        invariant
            forall|j: int| 0 <= j < i ==> text::all_of(texts@)[j] != wanted@,
    {
        if same(texts[i].as_str(), wanted) {
            assert(text::all_of(texts@)[i as int] == wanted@);
            return true;
        }
    }
    false
}

/// Whether some address is exactly the one typed.
fn any_typed(wanted: &Option<String>, known: &[HandleRow], Ghost(spec): Ghost<Seq<char>>) -> (yes:
    bool)
    requires
        text::maybe(*wanted) == contacts::key(text::trim(spec)),
    ensures
        yes == some_typed(spec, addresses(known@)),
{
    for i in 0..known.len()
        invariant
            text::maybe(*wanted) == contacts::key(text::trim(spec)),
            forall|j: int|
                0 <= j < i ==> !is_typed(spec, #[trigger] addresses(known@)[j].handle),
    {
        if typed(wanted, known[i].handle.as_str()) {
            assert(is_typed(spec, addresses(known@)[i as int].handle));
            return true;
        }
    }
    false
}

/// Who the addresses that are picked out belong to.
fn owners_of(spec: &str, known: &[HandleRow], contacts: &ContactIndex) -> (out: Vec<String>)
    ensures
        text::all_of(out@) == owners(
            spec@,
            some_typed(spec@, addresses(known@)),
            addresses(known@),
            contacts@.contacts,
        ),
{
    let trimmed = trim_text(spec);
    let lowered = trimmed.to_lowercase();
    let wanted = handle_key(trimmed.as_str());
    let ghost all = addresses(known@);
    let exact = any_typed(&wanted, known, Ghost(spec@));
    let mut out: Vec<String> = Vec::new();
    assert(text::all_of(out@) =~= owners(spec@, exact, all.take(0), contacts@.contacts));
    for i in 0..known.len()
        invariant
            all == addresses(known@),
            text::maybe(wanted) == contacts::key(text::trim(spec@)),
            lowered@ == text::lowercase(text::trim(spec@)),
            text::all_of(out@) == owners(spec@, exact, all.take(i as int), contacts@.contacts),
    {
        let handle = known[i].handle.as_str();
        proof {
            assert(all.take(i + 1).drop_last() =~= all.take(i as int));
            assert(all.take(i + 1).last().handle == handle@);
        }
        let picked = if exact {
            typed(&wanted, handle)
        } else {
            like(lowered.as_str(), handle, contacts)
        };
        if picked {
            let ghost was = text::all_of(out@);
            let who = person_identity(handle, contacts);
            let ghost key = who@;
            out.push(who);
            assert(text::all_of(out@) =~= was.push(key));
        }
    }
    assert(all.take(all.len() as int) =~= all);
    out
}

/// Where somebody is among `people`.
fn seat_of(people: &Vec<Match>, who: &str) -> (out: Option<usize>)
    ensures
        match seat(candidates(people@), who@) {
            Some(at) => out is Some && out->0 == at && at < people@.len(),
            None => out is None,
        },
{
    let ghost all = candidates(people@);
    for i in 0..people.len()
        invariant
            all == candidates(people@),
            seat(all.take(i as int), who@) is None,
    {
        proof {
            assert(all.take(i + 1).drop_last() =~= all.take(i as int));
            assert(all.take(i + 1).last().identity == people@[i as int].identity@);
        }
        if same(people[i].identity.as_str(), who) {
            proof {
                seat_stays(all, who@, i + 1);
            }
            return Some(i);
        }
    }
    assert(all.take(all.len() as int) =~= all);
    None
}

/// Somebody with a seat keeps it when more people sit down behind them.
proof fn seat_stays(people: Seq<Candidate>, who: Seq<char>, n: int)
    requires
        0 <= n <= people.len(),
        seat(people.take(n), who) is Some,
    ensures
        seat(people, who) == seat(people.take(n), who),
    decreases people.len(),
{
    if n < people.len() {
        assert(people.drop_last().take(n) =~= people.take(n));
        seat_stays(people.drop_last(), who, n);
    } else {
        assert(people.take(n) =~= people);
    }
}

/// How many of `people` stay ahead of somebody new.
fn new_seat_of(people: &Vec<Match>, who: &str) -> (at: usize)
    ensures
        at == new_seat(candidates(people@), who@),
        at <= people@.len(),
{
    let mut at: usize = people.len();
    let ghost all = candidates(people@);
    assert(all.take(at as int) =~= all);
    while at > 0 && is_text_before(who, people[at - 1].identity.as_str())
        invariant
            at <= people@.len(),
            all == candidates(people@),
            new_seat(all, who@) == new_seat(all.take(at as int), who@),
        decreases at,
    {
        assert(all.take(at as int).drop_last() =~= all.take(at - 1));
        at -= 1;
    }
    at
}

/// Somebody at their first address.
fn introduce(row: &HandleRow, contacts: &ContactIndex) -> (out: Match)
    ensures
        out@ == introduced(row@, contacts@.contacts),
{
    let identity = person_identity(row.handle.as_str(), contacts);
    let (name, filed_as) = match contacts.contact(Some(row.handle.as_str())) {
        Some(contact) => (contact.name.clone(), copied(&contact.filed_as)),
        None => (row.handle.clone(), None),
    };
    let mut handle_ids: Vec<i64> = Vec::new();
    handle_ids.push(row.rowid);
    let mut handles: Vec<String> = Vec::new();
    handles.push(row.handle.clone());
    let out = Match { identity, person: Person { name, filed_as, handle_ids, handles } };
    assert(out@ =~= introduced(row@, contacts@.contacts)) by {
        assert(out.person@.handle_ids =~= seq![row.rowid]);
        assert(out.person@.handles =~= seq![row.handle@]);
    }
    out
}

/// Give somebody one more address.
fn meet_again(people: &mut Vec<Match>, at: usize, row: &HandleRow)
    requires
        at < old(people)@.len(),
    ensures
        candidates(final(people)@) == candidates(old(people)@).update(
            at as int,
            also_at(candidates(old(people)@)[at as int], row@),
        ),
{
    let ghost was = candidates(people@);
    let Match { identity, person } = people.remove(at);
    let Person { name, filed_as, handle_ids, handles } = person;
    let ghost before = handles@;
    let mut handle_ids = handle_ids;
    let mut handles = handles;
    handle_ids.push(row.rowid);
    handles.push(row.handle.clone());
    assert(text::all_of(handles@) =~= text::all_of(before).push(row.handle@));
    let again = Match { identity, person: Person { name, filed_as, handle_ids, handles } };
    let ghost seen = again@;
    people.insert(at, again);
    proof {
        assert(seen =~= also_at(was[at as int], row@));
        assert(candidates(people@) =~= was.update(at as int, seen));
    }
}

/// Those of `people` who are named exactly `needle`.
fn keep_exact(people: Vec<Match>, needle: &str) -> (out: Vec<Match>)
    ensures
        candidates(out@) == exactly_so(candidates(people@), needle@),
{
    let ghost all = candidates(people@);
    let ghost given = people@;
    let mut out: Vec<Match> = Vec::new();
    assert(candidates(out@) =~= exactly_so(all.take(0), needle@));
    for person in iter: people
        invariant
            iter.seq() == given,
            all == candidates(given),
            candidates(out@) == exactly_so(all.take(iter.index() as int), needle@),
    {
        let ghost was = candidates(out@);
        let ghost seen = person@;
        proof {
            let n = iter.index() as int;
            assert(all.take(n + 1).drop_last() =~= all.take(n));
            assert(all.take(n + 1).last() == seen);
        }
        if exactly_named(
            person.person.name.as_str(),
            borrowed(&person.person.filed_as),
            needle,
        ) {
            out.push(person);
            assert(candidates(out@) =~= was.push(seen));
        }
    }
    assert(all.take(all.len() as int) =~= all);
    out
}

/// How many of `people` are named exactly `needle`.
fn count_exact(people: &Vec<Match>, needle: &str) -> (n: usize)
    ensures
        n == exactly_so(candidates(people@), needle@).len(),
        n <= people@.len(),
{
    let ghost all = candidates(people@);
    let mut n: usize = 0;
    for i in 0..people.len()
        invariant
            all == candidates(people@),
            n <= i,
            n == exactly_so(all.take(i as int), needle@).len(),
    {
        proof {
            assert(all.take(i + 1).drop_last() =~= all.take(i as int));
            assert(all.take(i + 1).last() == people@[i as int]@);
        }
        if exactly_named(
            people[i].person.name.as_str(),
            borrowed(&people[i].person.filed_as),
            needle,
        ) {
            n += 1;
        }
    }
    assert(all.take(all.len() as int) =~= all);
    n
}

/// What stands for the people a spec names, or why nobody could be.
pub open spec fn people_or(out: Result<Vec<Match>, Error>) -> Result<Seq<Candidate>, ErrorView> {
    match out {
        Ok(people) => Ok(candidates(people@)),
        Err(error) => Err(error@),
    }
}

/// Everyone a spec could name, keyed by identity, and every address they use.
///
/// Two addresses belong to the same person when they belong to the same Contacts
/// record — the record, not the name it renders as. Addresses with no contact
/// behind them are each their own person.
///
/// Matching happens in two passes, and the second is the point. Naming any one
/// address has to reach the rest: the first pass decides *who* matched and the
/// second gathers every address those people have, whether or not it looks
/// anything like what was typed.
pub fn people_matching(spec: &str, known: &[HandleRow], contacts: &ContactIndex) -> (out: Result<
    Vec<Match>,
    Error,
>)
    ensures
        people_or(out) == (if text::trim(spec@).len() == 0 {
            Err(ErrorView::Other("no one to search for"@))
        } else {
            Ok(named(spec@, addresses(known@), contacts@.contacts))
        }),
{
    let trimmed = trim_text(spec);
    if trimmed.as_str().is_empty() {
        return Err(Error::other("no one to search for"));
    }
    let owned = owners_of(spec, known, contacts);
    let ghost all = addresses(known@);
    let mut people: Vec<Match> = Vec::new();
    assert(candidates(people@) =~= gathered(spec@, all, contacts@.contacts, 0));
    for i in 0..known.len()
        invariant
            all == addresses(known@),
            text::all_of(owned@) == owners(
                spec@,
                some_typed(spec@, all),
                all,
                contacts@.contacts,
            ),
            candidates(people@) == gathered(spec@, all, contacts@.contacts, i as nat),
    {
        let row = &known[i];
        assert(all[i as int] == row@);
        let who = person_identity(row.handle.as_str(), contacts);
        if is_among(&owned, who.as_str()) {
            match seat_of(&people, who.as_str()) {
                Some(at) => {
                    meet_again(&mut people, at, row);
                },
                None => {
                    let at: usize = new_seat_of(&people, who.as_str());
                    let ghost was = candidates(people@);
                    let new = introduce(row, contacts);
                    let ghost seen = new@;
                    people.insert(at, new);
                    assert(candidates(people@) =~= was.insert(at as int, seen));
                },
            }
        }
    }
    let lowered = trimmed.to_lowercase();
    if people.len() > 1 && count_exact(&people, lowered.as_str()) == 1 {
        return Ok(keep_exact(people, lowered.as_str()));
    }
    Ok(people)
}

/// How many people an ambiguity names.
pub const NAMED: usize = 6;

/// How many of `people` are called `name`.
pub open spec fn called(people: Seq<Candidate>, name: Seq<char>) -> nat
    decreases people.len(),
{
    if people.len() == 0 {
        0
    } else {
        called(people.drop_last(), name) + (if people.last().person.name == name {
            1nat
        } else {
            0
        })
    }
}

/// Somebody well enough to be told apart from the rest of `people`: by name,
/// with an address where the name is not theirs alone.
pub open spec fn told_apart(people: Seq<Candidate>, person: PersonSeen) -> Seq<char> {
    if called(people, person.name) >= 2 && person.handles.len() > 0 {
        person.name + " ("@ + person.handles[0] + ")"@
    } else {
        person.name
    }
}

/// Everybody told apart, in a list.
pub open spec fn list(people: Seq<Candidate>) -> Seq<char> {
    text::join(Seq::new(people.len(), |i: int| told_apart(people, people[i].person)), ", "@)
}

/// The first few of `people`.
pub open spec fn first_few(people: Seq<Candidate>) -> Seq<Candidate> {
    if people.len() > NAMED {
        people.take(NAMED as int)
    } else {
        people
    }
}

/// What is said of a spec that names more than one person.
pub open spec fn several(spec: Seq<char>, people: Seq<Candidate>) -> Seq<char> {
    text::decimal(people.len() as int) + " people match "@ + spec + ": "@ + list(first_few(people))
}

/// How many of the first `n` of `people` are called `name`.
fn count_called(people: &Vec<Match>, n: usize, name: &str) -> (out: usize)
    requires
        n <= people@.len(),
    ensures
        out == called(candidates(people@).take(n as int), name@),
        out <= n,
{
    let ghost all = candidates(people@);
    let mut out: usize = 0;
    for i in 0..n
        invariant
            n <= people@.len(),
            all == candidates(people@),
            out <= i,
            out == called(all.take(i as int), name@),
    {
        proof {
            assert(all.take(i + 1).drop_last() =~= all.take(i as int));
            assert(all.take(i + 1).last() == people@[i as int]@);
        }
        if same(people[i].person.name.as_str(), name) {
            out += 1;
        }
    }
    out
}

/// Label each person well enough to tell them apart, which their names alone may
/// not do. An address is added only where the name is ambiguous, so the usual
/// message stays a list of names.
fn describe(people: &Vec<Match>, n: usize) -> (out: String)
    requires
        n <= people@.len(),
    ensures
        out@ == list(candidates(people@).take(n as int)),
{
    let ghost shown = candidates(people@).take(n as int);
    let mut labels: Vec<String> = Vec::new();
    for i in 0..n
        invariant
            n <= people@.len(),
            shown == candidates(people@).take(n as int),
            labels@.len() == i,
            forall|j: int|
                0 <= j < i ==> (#[trigger] labels@[j])@ == told_apart(shown, shown[j].person),
    {
        let person = &people[i].person;
        assert(shown[i as int].person == person@);
        let mut label: String = person.name.clone();
        if count_called(people, n, person.name.as_str()) >= 2 && person.handles.len() > 0 {
            label.append(" (");
            label.append(person.handles[0].as_str());
            label.append(")");
        }
        labels.push(label);
    }
    assert(text::all_of(labels@) =~= Seq::new(
        shown.len(),
        |i: int| told_apart(shown, shown[i].person),
    ));
    joined(&labels, ", ")
}

/// The error for a spec that names more than one person, listing them.
pub fn several_people(spec: &str, people: &Vec<Match>) -> (out: Error)
    ensures
        out@ == ErrorView::Other(several(spec@, candidates(people@))),
{
    let n: usize = if people.len() > NAMED {
        NAMED
    } else {
        people.len()
    };
    proof {
        let all = candidates(people@);
        assert(all.take(all.len() as int) =~= all);
    }
    let mut message: String = count_of(people.len());
    message.append(" people match ");
    message.append(spec);
    message.append(": ");
    message.append(describe(people, n).as_str());
    Error::Other(message)
}

/// The one person a spec names, or why there is not one.
pub open spec fn sole(
    spec: Seq<char>,
    known: Seq<Address>,
    contacts: Seq<ContactView>,
) -> Result<PersonSeen, ErrorView> {
    let people = named(spec, known, contacts);
    if text::trim(spec).len() == 0 {
        Err(ErrorView::Other("no one to search for"@))
    } else if people.len() == 0 {
        Err(ErrorView::Other("no one matching "@ + spec))
    } else if people.len() == 1 {
        Ok(people[0].person)
    } else {
        Err(ErrorView::Other(several(spec, people)))
    }
}

/// What stands for a person, or for why there is not one.
pub open spec fn person_or(out: Result<Person, Error>) -> Result<PersonSeen, ErrorView> {
    match out {
        Ok(person) => Ok(person@),
        Err(error) => Err(error@),
    }
}

/// Find one person, and gather every address they use — [`people_matching`],
/// required to name exactly one.
pub fn resolve_person(spec: &str, known: &[HandleRow], contacts: &ContactIndex) -> (out: Result<
    Person,
    Error,
>)
    ensures
        person_or(out) == sole(spec@, addresses(known@), contacts@.contacts),
{
    let mut people = match people_matching(spec, known, contacts) {
        Ok(people) => people,
        Err(error) => return Err(error),
    };
    if people.len() == 0 {
        let mut message: String = "no one matching ".to_owned();
        message.append(spec);
        return Err(Error::Other(message));
    }
    if people.len() > 1 {
        return Err(several_people(spec, &people));
    }
    let ghost all = candidates(people@);
    let only = people.remove(0);
    assert(all[0] == only@);
    Ok(only.person)
}

/// What the two person flags ask for together.
pub open spec fn filter_or(out: Result<Option<(Person, Sender)>, Error>) -> Result<
    Option<(PersonSeen, Sender)>,
    ErrorView,
> {
    match out {
        Ok(None) => Ok(None),
        Ok(Some((person, sender))) => Ok(Some((person@, sender))),
        Err(error) => Err(error@),
    }
}

/// The filter a person and a direction make, or why there is no person.
pub open spec fn directed(who: Result<PersonSeen, ErrorView>, sender: Sender) -> Result<
    Option<(PersonSeen, Sender)>,
    ErrorView,
> {
    match who {
        Ok(person) => Ok(Some((person, sender))),
        Err(error) => Err(error),
    }
}

/// Turn the two person flags into one resolved filter.
///
/// Enforced here rather than only in the argument parser, because the daemon
/// answers whatever a client sends. Silently preferring one flag over the other
/// would answer a different question from the one asked.
pub fn person_filter(
    with: Option<&str>,
    from: Option<&str>,
    known: &[HandleRow],
    contacts: &ContactIndex,
) -> (out: Result<Option<(Person, Sender)>, Error>)
    ensures
        filter_or(out) == (match (with, from) {
            (Some(_), Some(_)) => Err(
                ErrorView::Other("--with and --from ask different questions; use one"@),
            ),
            (Some(spec), None) => directed(
                sole(spec@, addresses(known@), contacts@.contacts),
                Sender::BothWays,
            ),
            (None, Some(spec)) => directed(
                sole(spec@, addresses(known@), contacts@.contacts),
                Sender::Only,
            ),
            (None, None) => Ok(None),
        }),
{
    match (with, from) {
        (Some(_), Some(_)) => Err(
            Error::other("--with and --from ask different questions; use one"),
        ),
        (Some(spec), None) => match resolve_person(spec, known, contacts) {
            Ok(person) => Ok(Some((person, Sender::BothWays))),
            Err(error) => Err(error),
        },
        (None, Some(spec)) => match resolve_person(spec, known, contacts) {
            Ok(person) => Ok(Some((person, Sender::Only))),
            Err(error) => Err(error),
        },
        (None, None) => Ok(None),
    }
}

/// Somebody among `people` with this key has this address.
pub open spec fn has_address(people: Seq<Candidate>, who: Seq<char>, handle: Seq<char>) -> bool {
    exists|k: int|
        0 <= k < people.len() && (#[trigger] people[k]).identity == who
            && people[k].person.handles.contains(handle)
}

/// Naming any one address reaches the rest: of everybody matched, every address
/// they have is gathered, whether or not it looks like what was typed.
pub proof fn naming_one_address_reaches_the_rest(
    spec: Seq<char>,
    known: Seq<Address>,
    contacts: Seq<ContactView>,
    i: int,
)
    requires
        0 <= i < known.len(),
        matched(spec, known, contacts, identity(known[i].handle, contacts)),
    ensures
        has_address(
            gathered(spec, known, contacts, known.len()),
            identity(known[i].handle, contacts),
            known[i].handle,
        ),
{
    gathered_reaches(spec, known, contacts, known.len(), i);
}

proof fn seat_is_theirs(people: Seq<Candidate>, who: Seq<char>)
    ensures
        match seat(people, who) {
            Some(at) => at < people.len() && people[at as int].identity == who,
            None => forall|i: int| 0 <= i < people.len() ==> (#[trigger] people[i]).identity != who,
        },
    decreases people.len(),
{
    if people.len() > 0 {
        seat_is_theirs(people.drop_last(), who);
        assert forall|i: int| 0 <= i < people.drop_last().len() implies #[trigger] people[i]
            == people.drop_last()[i] by {}
    }
}

proof fn new_seat_is_within(people: Seq<Candidate>, who: Seq<char>)
    ensures
        new_seat(people, who) <= people.len(),
    decreases people.len(),
{
    if people.len() > 0 {
        new_seat_is_within(people.drop_last(), who);
    }
}

proof fn gathered_reaches(
    spec: Seq<char>,
    known: Seq<Address>,
    contacts: Seq<ContactView>,
    n: nat,
    i: int,
)
    requires
        0 <= i < n <= known.len(),
        matched(spec, known, contacts, identity(known[i].handle, contacts)),
    ensures
        has_address(
            gathered(spec, known, contacts, n),
            identity(known[i].handle, contacts),
            known[i].handle,
        ),
    decreases n,
{
    let before = gathered(spec, known, contacts, (n - 1) as nat);
    let out = gathered(spec, known, contacts, n);
    let address = known[n - 1];
    let new = identity(address.handle, contacts);
    let who = identity(known[i].handle, contacts);
    seat_is_theirs(before, new);
    new_seat_is_within(before, new);
    if i < n - 1 {
        gathered_reaches(spec, known, contacts, (n - 1) as nat, i);
        let k = choose|k: int|
            0 <= k < before.len() && (#[trigger] before[k]).identity == who
                && before[k].person.handles.contains(known[i].handle);
        if matched(spec, known, contacts, new) {
            match seat(before, new) {
                Some(at) => {
                    if at == k {
                        let handles = before[k].person.handles;
                        let j = choose|j: int|
                            0 <= j < handles.len() && handles[j] == known[i].handle;
                        assert(handles.push(address.handle)[j] == known[i].handle);
                        assert(out[k].person.handles == handles.push(address.handle));
                    } else {
                        assert(out[k] == before[k]);
                    }
                    assert(out[k].identity == who);
                },
                None => {
                    let at = new_seat(before, new) as int;
                    let m = if k < at { k } else { k + 1 };
                    assert(out[m] == before[k]);
                },
            }
        }
    } else {
        match seat(before, new) {
            Some(at) => {
                let handles = before[at as int].person.handles;
                assert(handles.push(address.handle)[handles.len() as int] == address.handle);
                assert(out[at as int].identity == who);
            },
            None => {
                let at = new_seat(before, new) as int;
                assert(out[at] == introduced(address, contacts));
                assert(out[at].person.handles[0] == address.handle);
            },
        }
    }
}

/// An address typed in full names its owner outright: nobody is matched by an
/// address that merely has it inside.
pub proof fn an_address_in_full_names_its_owner(
    spec: Seq<char>,
    known: Seq<Address>,
    contacts: Seq<ContactView>,
    who: Seq<char>,
)
    requires
        some_typed(spec, known),
        matched(spec, known, contacts, who),
    ensures
        exists|i: int|
            0 <= i < known.len() && is_typed(spec, #[trigger] known[i].handle) && identity(
                known[i].handle,
                contacts,
            ) == who,
{
    owners_are_picked(spec, true, known, contacts, who);
}

proof fn owners_are_picked(
    spec: Seq<char>,
    exact: bool,
    known: Seq<Address>,
    contacts: Seq<ContactView>,
    who: Seq<char>,
)
    requires
        owners(spec, exact, known, contacts).contains(who),
    ensures
        exists|i: int|
            0 <= i < known.len() && picks(spec, exact, #[trigger] known[i].handle, contacts)
                && identity(known[i].handle, contacts) == who,
    decreases known.len(),
{
    let out = owners(spec, exact, known, contacts);
    let k = choose|k: int| 0 <= k < out.len() && out[k] == who;
    if known.len() > 0 {
        let before = owners(spec, exact, known.drop_last(), contacts);
        if k < before.len() {
            assert(before[k] == who);
            owners_are_picked(spec, exact, known.drop_last(), contacts, who);
            let i = choose|i: int|
                0 <= i < known.drop_last().len() && picks(
                    spec,
                    exact,
                    #[trigger] known.drop_last()[i].handle,
                    contacts,
                ) && identity(known.drop_last()[i].handle, contacts) == who;
            assert(known[i] == known.drop_last()[i]);
            assert(picks(spec, exact, known[i].handle, contacts));
        } else {
            assert(picks(spec, exact, known[known.len() - 1].handle, contacts));
        }
    }
}

/// People are told apart by their records and never by what they are called:
/// no two of those gathered have the same key.
pub proof fn people_have_different_keys(
    spec: Seq<char>,
    known: Seq<Address>,
    contacts: Seq<ContactView>,
    n: nat,
)
    requires
        n <= known.len(),
    ensures
        forall|i: int, j: int|
            0 <= i < j < gathered(spec, known, contacts, n).len() ==> (#[trigger] gathered(
                spec,
                known,
                contacts,
                n,
            )[i]).identity != (#[trigger] gathered(spec, known, contacts, n)[j]).identity,
    decreases n,
{
    if n > 0 {
        people_have_different_keys(spec, known, contacts, (n - 1) as nat);
        let before = gathered(spec, known, contacts, (n - 1) as nat);
        let out = gathered(spec, known, contacts, n);
        let who = identity(known[n - 1].handle, contacts);
        seat_is_theirs(before, who);
        new_seat_is_within(before, who);
        let at = new_seat(before, who) as int;
        assert forall|i: int, j: int| 0 <= i < j < out.len() implies (#[trigger] out[i]).identity
            != (#[trigger] out[j]).identity by {
            if out.len() == before.len() {
                assert(out[i].identity == before[i].identity);
                assert(out[j].identity == before[j].identity);
            } else {
                let a = if i < at { i } else { i - 1 };
                let b = if j < at { j } else { j - 1 };
                if i != at {
                    assert(out[i] == before[a]);
                }
                if j != at {
                    assert(out[j] == before[b]);
                }
            }
        }
    }
}

/// Two shapes of one unknown number are still one person.
pub proof fn a_shape_is_the_same_person(a: Seq<char>, b: Seq<char>, contacts: Seq<ContactView>)
    requires
        contacts::key(a) is Some,
        contacts::key(a) == contacts::key(b),
    ensures
        identity(a, contacts) == identity(b, contacts),
{
}

/// Two addresses on one record are one person's; addresses on different records, and
/// an address on a record and one on none, are different people's.
pub proof fn a_record_is_one_person(a: Seq<char>, b: Seq<char>, contacts: Seq<ContactView>)
    requires
        contacts::held(contacts, a) is Some,
    ensures
        contacts::held(contacts, b) matches Some(other) ==> (identity(a, contacts) == identity(
            b,
            contacts,
        ) <==> contacts::held(contacts, a)->0.id == other.id),
        contacts::held(contacts, b) is None ==> identity(a, contacts) != identity(b, contacts),
{
    reveal_strlit("contact:");
    reveal_strlit("handle:");
    let mine = "contact:"@ + contacts::held(contacts, a)->0.id;
    assert(mine[0] == 'c');
    match contacts::held(contacts, b) {
        Some(other) => {
            let theirs = "contact:"@ + other.id;
            if mine == theirs {
                assert(mine.skip(8) =~= contacts::held(contacts, a)->0.id);
                assert(theirs.skip(8) =~= other.id);
            }
        },
        None => {
            assert(identity(b, contacts)[0] == 'h');
        },
    }
}

proof fn picked_are_owned(
    spec: Seq<char>,
    exact: bool,
    known: Seq<Address>,
    contacts: Seq<ContactView>,
    i: int,
)
    requires
        0 <= i < known.len(),
        picks(spec, exact, known[i].handle, contacts),
    ensures
        owners(spec, exact, known, contacts).contains(identity(known[i].handle, contacts)),
    decreases known.len(),
{
    let out = owners(spec, exact, known, contacts);
    let who = identity(known[i].handle, contacts);
    if i < known.len() - 1 {
        let before = owners(spec, exact, known.drop_last(), contacts);
        assert(known.drop_last()[i] == known[i]);
        picked_are_owned(spec, exact, known.drop_last(), contacts, i);
        let k = choose|k: int| 0 <= k < before.len() && before[k] == who;
        assert(out[k] == who);
    } else {
        assert(out[out.len() - 1] == who);
    }
}

/// An address goes by what was typed: it has the text in it, or its owner answers to it.
pub open spec fn goes_by(typed: Seq<char>, handle: Seq<char>, contacts: Seq<ContactView>) -> bool {
    ||| text::contains(text::lowercase(handle), text::lowercase(text::trim(typed)))
    ||| contacts::held(contacts, handle) matches Some(owner) && owner.answers(
        text::lowercase(text::trim(typed)),
    )
}

/// Where no address is exactly what was typed, somebody is matched if and only if one of
/// their addresses has it in it or they answer to it as a name. Where one is, somebody is
/// matched if and only if it is theirs.
pub proof fn who_is_matched(
    spec: Seq<char>,
    known: Seq<Address>,
    contacts: Seq<ContactView>,
    who: Seq<char>,
)
    ensures
        (forall|i: int|
            0 <= i < known.len() ==> contacts::key(text::trim(spec)) is None || contacts::key(
                #[trigger] known[i].handle,
            ) != contacts::key(text::trim(spec))) ==> (matched(spec, known, contacts, who)
            <==> exists|i: int|
            0 <= i < known.len() && goes_by(spec, #[trigger] known[i].handle, contacts) && identity(
                known[i].handle,
                contacts,
            ) == who),
        (exists|i: int|
            0 <= i < known.len() && contacts::key(text::trim(spec)) is Some && contacts::key(
                #[trigger] known[i].handle,
            ) == contacts::key(text::trim(spec))) ==> (matched(spec, known, contacts, who)
            <==> exists|i: int|
            0 <= i < known.len() && contacts::key(#[trigger] known[i].handle) == contacts::key(
                text::trim(spec),
            ) && identity(known[i].handle, contacts) == who),
{
    let exact = some_typed(spec, known);
    if exact {
        let j = choose|j: int| 0 <= j < known.len() && is_typed(spec, #[trigger] known[j].handle);
        assert(contacts::key(known[j].handle) == contacts::key(text::trim(spec)));
    }
    if exists|i: int|
        0 <= i < known.len() && contacts::key(text::trim(spec)) is Some && contacts::key(
            #[trigger] known[i].handle,
        ) == contacts::key(text::trim(spec)) {
        let j = choose|j: int|
            0 <= j < known.len() && contacts::key(text::trim(spec)) is Some && contacts::key(
                #[trigger] known[j].handle,
            ) == contacts::key(text::trim(spec));
        assert(is_typed(spec, known[j].handle));
    }
    if matched(spec, known, contacts, who) {
        owners_are_picked(spec, exact, known, contacts, who);
        let i = choose|i: int|
            0 <= i < known.len() && picks(spec, exact, #[trigger] known[i].handle, contacts)
                && identity(known[i].handle, contacts) == who;
        assert(exact ==> contacts::key(known[i].handle) == contacts::key(text::trim(spec)));
        assert(!exact ==> goes_by(spec, known[i].handle, contacts));
    }
    if !exact && (exists|i: int|
        0 <= i < known.len() && goes_by(spec, #[trigger] known[i].handle, contacts) && identity(
            known[i].handle,
            contacts,
        ) == who) {
        let i = choose|i: int|
            0 <= i < known.len() && goes_by(spec, #[trigger] known[i].handle, contacts) && identity(
                known[i].handle,
                contacts,
            ) == who;
        picked_are_owned(spec, exact, known, contacts, i);
    }
    if exact && (exists|i: int|
        0 <= i < known.len() && contacts::key(#[trigger] known[i].handle) == contacts::key(
            text::trim(spec),
        ) && identity(known[i].handle, contacts) == who) {
        let i = choose|i: int|
            0 <= i < known.len() && contacts::key(#[trigger] known[i].handle) == contacts::key(
                text::trim(spec),
            ) && identity(known[i].handle, contacts) == who;
        picked_are_owned(spec, exact, known, contacts, i);
    }
}

/// An address among the first few is somebody's, under this number.
pub open spec fn is_theirs(
    known: Seq<Address>,
    n: nat,
    contacts: Seq<ContactView>,
    who: Seq<char>,
    rowid: i64,
    handle: Seq<char>,
) -> bool {
    exists|i: int|
        0 <= i < n && (#[trigger] known[i]).rowid == rowid && known[i].handle == handle && identity(
            handle,
            contacts,
        ) == who
}

/// Somebody is what they were gathered from: as many numbers as addresses, each number
/// that of the address beside it, every one of them theirs, and their name the one on
/// their record or else their first address.
pub open spec fn is_gathered_from(
    candidate: Candidate,
    known: Seq<Address>,
    n: nat,
    contacts: Seq<ContactView>,
) -> bool {
    &&& candidate.person.handles.len() == candidate.person.handle_ids.len()
    &&& candidate.person.handles.len() > 0
    &&& forall|j: int|
        #![trigger candidate.person.handles[j]]
        0 <= j < candidate.person.handles.len() ==> is_theirs(
            known,
            n,
            contacts,
            candidate.identity,
            candidate.person.handle_ids[j],
            candidate.person.handles[j],
        )
    &&& match contacts::held(contacts, candidate.person.handles[0]) {
        Some(owner) => candidate.person.name == owner.name && candidate.person.filed_as
            == owner.filed_as,
        None => candidate.person.name == candidate.person.handles[0]
            && candidate.person.filed_as is None,
    }
}

/// Everybody gathered was matched, has nobody else's addresses, and goes by the name on
/// their record, or by their address where they have no record.
pub proof fn everybody_gathered_is_themselves(
    spec: Seq<char>,
    known: Seq<Address>,
    contacts: Seq<ContactView>,
    n: nat,
    k: int,
)
    requires
        n <= known.len(),
        0 <= k < gathered(spec, known, contacts, n).len(),
    ensures
        matched(spec, known, contacts, gathered(spec, known, contacts, n)[k].identity),
        is_gathered_from(gathered(spec, known, contacts, n)[k], known, n, contacts),
    decreases n,
{
    let before = gathered(spec, known, contacts, (n - 1) as nat);
    let out = gathered(spec, known, contacts, n);
    let address = known[n - 1];
    let who = identity(address.handle, contacts);
    let one = out[k];
    seat_is_theirs(before, who);
    new_seat_is_within(before, who);
    let at = new_seat(before, who) as int;
    if matched(spec, known, contacts, who) && seat(before, who) is None && k == at {
        assert(known[n - 1].rowid == one.person.handle_ids[0]);
        assert(is_theirs(known, n, contacts, who, address.rowid, address.handle));
    } else {
        let j = if matched(spec, known, contacts, who) && seat(before, who) is None && k > at {
            k - 1
        } else {
            k
        };
        everybody_gathered_is_themselves(spec, known, contacts, (n - 1) as nat, j);
        let was = before[j];
        assert forall|m: int| 0 <= m < was.person.handles.len() implies is_theirs(
            known,
            n,
            contacts,
            was.identity,
            was.person.handle_ids[m],
            #[trigger] was.person.handles[m],
        ) by {
            let i = choose|i: int|
                0 <= i < n - 1 && (#[trigger] known[i]).rowid == was.person.handle_ids[m]
                    && known[i].handle == was.person.handles[m] && identity(
                    was.person.handles[m],
                    contacts,
                ) == was.identity;
            assert(known[i].rowid == was.person.handle_ids[m]);
        }
        if matched(spec, known, contacts, who) && seat(before, who) == Some(k as nat) {
            assert(one == also_at(was, address));
            assert(known[n - 1].rowid == address.rowid);
            assert(is_theirs(known, n, contacts, who, address.rowid, address.handle));
            assert forall|m: int| 0 <= m < one.person.handles.len() implies is_theirs(
                known,
                n,
                contacts,
                one.identity,
                one.person.handle_ids[m],
                #[trigger] one.person.handles[m],
            ) by {
                if m < was.person.handles.len() {
                    assert(one.person.handles[m] == was.person.handles[m]);
                    assert(one.person.handle_ids[m] == was.person.handle_ids[m]);
                }
            }
            assert(one.person.handles[0] == was.person.handles[0]);
        } else {
            assert(one == was);
        }
    }
}

proof fn called_at_least(people: Seq<Candidate>, name: Seq<char>, i: int)
    requires
        0 <= i < people.len(),
        people[i].person.name == name,
    ensures
        called(people, name) >= 1,
    decreases people.len(),
{
    if i < people.len() - 1 {
        assert(people.drop_last()[i] == people[i]);
        called_at_least(people.drop_last(), name, i);
    }
}

proof fn called_by_two(people: Seq<Candidate>, name: Seq<char>, i: int, j: int)
    requires
        0 <= i < j < people.len(),
        people[i].person.name == name,
        people[j].person.name == name,
    ensures
        called(people, name) >= 2,
    decreases people.len(),
{
    let rest = people.drop_last();
    assert(rest[i] == people[i]);
    if j < people.len() - 1 {
        assert(rest[j] == people[j]);
        called_by_two(rest, name, i, j);
    } else {
        called_at_least(rest, name, i);
    }
}

proof fn called_by_one(people: Seq<Candidate>, name: Seq<char>, i: int)
    requires
        0 <= i < people.len(),
        forall|j: int| 0 <= j < people.len() && j != i ==> (#[trigger] people[j]).person.name != name,
    ensures
        called(people, name) <= 1,
    decreases people.len(),
{
    let rest = people.drop_last();
    if i < people.len() - 1 {
        assert(people[people.len() - 1].person.name != name);
        assert forall|j: int| 0 <= j < rest.len() && j != i implies (#[trigger] rest[j]).person.name
            != name by {
            assert(people[j] == rest[j]);
        }
        called_by_one(rest, name, i);
    } else {
        assert forall|j: int| 0 <= j < rest.len() implies (#[trigger] rest[j]).person.name
            != name by {
            assert(people[j] == rest[j]);
        }
        called_by_nobody(rest, name);
    }
}

proof fn called_by_nobody(people: Seq<Candidate>, name: Seq<char>)
    requires
        forall|j: int| 0 <= j < people.len() ==> (#[trigger] people[j]).person.name != name,
    ensures
        called(people, name) == 0,
    decreases people.len(),
{
    if people.len() > 0 {
        assert(people[people.len() - 1].person.name != name);
        assert forall|j: int| 0 <= j < people.len() - 1 implies (#[trigger] people.drop_last()[j]).person.name
            != name by {
            assert(people[j] == people.drop_last()[j]);
        }
        called_by_nobody(people.drop_last(), name);
    }
}

/// Somebody is listed by name, and by an address as well where another of those listed
/// has the same name, and only there.
pub proof fn a_shared_name_is_told_apart_by_an_address(people: Seq<Candidate>, i: int)
    requires
        0 <= i < people.len(),
        people[i].person.handles.len() > 0,
    ensures
        (exists|j: int|
            0 <= j < people.len() && j != i && (#[trigger] people[j]).person.name
                == people[i].person.name) ==> told_apart(people, people[i].person)
            == people[i].person.name + " ("@ + people[i].person.handles[0] + ")"@,
        (forall|j: int|
            0 <= j < people.len() && j != i ==> (#[trigger] people[j]).person.name
                != people[i].person.name) ==> told_apart(people, people[i].person)
            == people[i].person.name,
{
    let name = people[i].person.name;
    if exists|j: int| 0 <= j < people.len() && j != i && (#[trigger] people[j]).person.name == name {
        let j = choose|j: int|
            0 <= j < people.len() && j != i && (#[trigger] people[j]).person.name == name;
        if i < j {
            called_by_two(people, name, i, j);
        } else {
            called_by_two(people, name, j, i);
        }
    } else {
        called_by_one(people, name, i);
    }
}

/// What is said of several people counts them all, repeats what was asked, and names each
/// of the first six.
pub proof fn several_people_are_counted_and_named(
    spec: Seq<char>,
    people: Seq<Candidate>,
    i: int,
)
    requires
        0 <= i < people.len(),
        i < 6,
    ensures
        (text::decimal(people.len() as int) + " people match "@ + spec).is_prefix_of(
            several(spec, people),
        ),
        text::contains(several(spec, people), people[i].person.name),
{
    let all = several(spec, people);
    let head = text::decimal(people.len() as int) + " people match "@ + spec;
    let few = first_few(people);
    let labels = Seq::new(few.len(), |j: int| told_apart(few, few[j].person));
    let listed = list(few);
    assert(all =~= head + (": "@ + listed));
    assert(all.take(head.len() as int) =~= head);
    let from = (head + ": "@).len() as int;
    assert(all.subrange(from, from + listed.len()) =~= listed);
    assert(text::occurs_at(all, listed, from));
    text::a_part_is_held(labels, ", "@, i);
    let name = people[i].person.name;
    assert(few[i] == people[i]);
    assert(labels[i].subrange(0, name.len() as int) =~= name);
    assert(text::occurs_at(labels[i], name, 0));
    text::holding_carries(all, listed, labels[i]);
    text::holding_carries(all, labels[i], name);
}

/// Whoever a spec is resolved to is one of those it names, and one of several is never
/// picked.
pub proof fn one_person_is_resolved_or_none(
    spec: Seq<char>,
    known: Seq<Address>,
    contacts: Seq<ContactView>,
)
    requires
        text::trim(spec).len() > 0,
    ensures
        named(spec, known, contacts).len() == 1 <==> sole(spec, known, contacts) is Ok,
        sole(spec, known, contacts) matches Ok(person) ==> named(spec, known, contacts)[0].person
            == person,
        sole(spec, known, contacts) matches Err(ErrorView::Other(words)) ==> text::contains(
            words,
            spec,
        ),
        sole(spec, known, contacts) matches Err(error) ==> error is Other,
{
    let people = named(spec, known, contacts);
    if people.len() == 0 {
        let words = "no one matching "@ + spec;
        let at = "no one matching "@.len() as int;
        assert(words.subrange(at, at + spec.len()) =~= spec);
        assert(text::occurs_at(words, spec, at));
    } else if people.len() > 1 {
        let words = several(spec, people);
        let front = text::decimal(people.len() as int) + " people match "@;
        let at = front.len() as int;
        assert(words =~= front + spec + (": "@ + list(first_few(people))));
        assert(words.subrange(at, at + spec.len()) =~= spec);
        assert(text::occurs_at(words, spec, at));
    }
}

proof fn nobody_is_exactly_so(people: Seq<Candidate>, needle: Seq<char>)
    requires
        forall|j: int|
            0 <= j < people.len() ==> !contacts::exact_name(
                (#[trigger] people[j]).person.name,
                people[j].person.filed_as,
                needle,
            ),
    ensures
        exactly_so(people, needle).len() == 0,
    decreases people.len(),
{
    if people.len() > 0 {
        let rest = people.drop_last();
        assert(people[people.len() - 1] == people.last());
        assert forall|j: int| 0 <= j < rest.len() implies !contacts::exact_name(
            (#[trigger] rest[j]).person.name,
            rest[j].person.filed_as,
            needle,
        ) by {
            assert(people[j] == rest[j]);
        }
        nobody_is_exactly_so(rest, needle);
    }
}

proof fn only_one_is_exactly_so(people: Seq<Candidate>, needle: Seq<char>, k: int)
    requires
        0 <= k < people.len(),
        forall|j: int|
            0 <= j < people.len() ==> (contacts::exact_name(
                (#[trigger] people[j]).person.name,
                people[j].person.filed_as,
                needle,
            ) <==> j == k),
    ensures
        exactly_so(people, needle) == seq![people[k]],
    decreases people.len(),
{
    let rest = people.drop_last();
    assert(people[people.len() - 1] == people.last());
    assert forall|j: int| 0 <= j < rest.len() implies (contacts::exact_name(
        (#[trigger] rest[j]).person.name,
        rest[j].person.filed_as,
        needle,
    ) <==> j == k) by {
        assert(people[j] == rest[j]);
    }
    if k == people.len() - 1 {
        nobody_is_exactly_so(rest, needle);
        assert(exactly_so(people, needle) =~= seq![people[k]]);
    } else {
        only_one_is_exactly_so(rest, needle, k);
        assert(rest[k] == people[k]);
    }
}

/// Somebody whose whole name was typed, shown or filed under, is meant where nobody else's
/// is, however many others it is a part of the name of; and where it is nobody's whole
/// name everybody matched is meant.
pub proof fn a_whole_name_settles_a_tie(
    spec: Seq<char>,
    known: Seq<Address>,
    contacts: Seq<ContactView>,
    k: int,
)
    ensures
        0 <= k < gathered(spec, known, contacts, known.len()).len() && (forall|j: int|
            0 <= j < gathered(spec, known, contacts, known.len()).len() ==> (contacts::exact_name(
                (#[trigger] gathered(spec, known, contacts, known.len())[j]).person.name,
                gathered(spec, known, contacts, known.len())[j].person.filed_as,
                text::lowercase(text::trim(spec)),
            ) <==> j == k)) ==> named(spec, known, contacts) == seq![
            gathered(spec, known, contacts, known.len())[k],
        ],
        (forall|j: int|
            0 <= j < gathered(spec, known, contacts, known.len()).len() ==> !contacts::exact_name(
                (#[trigger] gathered(spec, known, contacts, known.len())[j]).person.name,
                gathered(spec, known, contacts, known.len())[j].person.filed_as,
                text::lowercase(text::trim(spec)),
            )) ==> named(spec, known, contacts) == gathered(spec, known, contacts, known.len()),
{
    let people = gathered(spec, known, contacts, known.len());
    let needle = text::lowercase(text::trim(spec));
    if 0 <= k < people.len() && (forall|j: int|
        0 <= j < people.len() ==> (contacts::exact_name(
            (#[trigger] people[j]).person.name,
            people[j].person.filed_as,
            needle,
        ) <==> j == k)) {
        only_one_is_exactly_so(people, needle, k);
        if people.len() == 1 {
            assert(people =~= seq![people[k]]);
        }
    }
    if forall|j: int|
        0 <= j < people.len() ==> !contacts::exact_name(
            (#[trigger] people[j]).person.name,
            people[j].person.filed_as,
            needle,
        ) {
        nobody_is_exactly_so(people, needle);
    }
}

proof fn somebody_new_goes_where_they_belong(people: Seq<Candidate>, who: Seq<char>)
    ensures
        new_seat(people, who) <= people.len(),
        forall|i: int|
            new_seat(people, who) <= i < people.len() ==> order::text_before(
                who,
                (#[trigger] people[i]).identity,
            ),
        new_seat(people, who) > 0 ==> !order::text_before(
            who,
            people[new_seat(people, who) - 1].identity,
        ),
    decreases people.len(),
{
    if people.len() > 0 && order::text_before(who, people.last().identity) {
        let rest = people.drop_last();
        somebody_new_goes_where_they_belong(rest, who);
        assert forall|i: int| new_seat(people, who) <= i < people.len() implies order::text_before(
            who,
            (#[trigger] people[i]).identity,
        ) by {
            if i < rest.len() {
                assert(rest[i] == people[i]);
            }
        }
    }
}

/// Everybody gathered stands in the order of the keys they are told apart by.
pub proof fn people_stand_in_the_order_of_their_keys(
    spec: Seq<char>,
    known: Seq<Address>,
    contacts: Seq<ContactView>,
    n: nat,
)
    requires
        n <= known.len(),
    ensures
        forall|i: int, j: int|
            #![trigger gathered(spec, known, contacts, n)[i], gathered(spec, known, contacts, n)[j]]
            0 <= i < j < gathered(spec, known, contacts, n).len() ==> order::text_before(
                gathered(spec, known, contacts, n)[i].identity,
                gathered(spec, known, contacts, n)[j].identity,
            ),
    decreases n,
{
    if n > 0 {
        let before = gathered(spec, known, contacts, (n - 1) as nat);
        let out = gathered(spec, known, contacts, n);
        let who = identity(known[n - 1].handle, contacts);
        people_stand_in_the_order_of_their_keys(spec, known, contacts, (n - 1) as nat);
        seat_is_theirs(before, who);
        somebody_new_goes_where_they_belong(before, who);
        let at = new_seat(before, who) as int;
        assert forall|i: int, j: int|
            #![trigger out[i], out[j]]
            0 <= i < j < out.len() implies order::text_before(out[i].identity, out[j].identity) by {
            if out.len() == before.len() {
                assert(out[i].identity == before[i].identity);
                assert(out[j].identity == before[j].identity);
                assert(order::text_before(before[i].identity, before[j].identity));
            } else {
                let a = if i < at { i } else { i - 1 };
                let b = if j < at { j } else { j - 1 };
                if i == at {
                    assert(out[j] == before[b]);
                } else if j == at {
                    assert(out[i] == before[a]);
                    order::text_order_is_total(before[at - 1].identity, who);
                    assert(before[at - 1].identity != who);
                    if a < at - 1 {
                        assert(order::text_before(before[a].identity, before[at - 1].identity));
                        order::text_order_is_strict(before[a].identity, before[at - 1].identity, who);
                    }
                } else {
                    assert(out[i] == before[a]);
                    assert(out[j] == before[b]);
                }
            }
        }
    }
}

} // verus!
