//! Reading Contacts databases into an index: what one row says about somebody,
//! and which of two accounts wins a handle.
use vstd::prelude::*;

use crate::contacts::{self, Contact, ContactIndex, ContactView, handle_key};
use crate::text::{
    self, borrowed, chars_of, decimal_of, ends_with, opens_with, same, same_maybe, slice_text,
    text_of, trimmed,
};

verus! {

/// Every phone number, with whose it is.
pub const PHONES_SQL: &'static str = "SELECT p.ZFULLNUMBER AS handle, p.ZLABEL AS label, r.Z_PK AS record,
                r.ZFIRSTNAME, r.ZLASTNAME, r.ZNICKNAME, r.ZORGANIZATION
           FROM ZABCDPHONENUMBER p
           JOIN ZABCDRECORD r ON r.Z_PK = p.ZOWNER
          WHERE p.ZFULLNUMBER IS NOT NULL";

/// Every email address, with whose it is.
pub const EMAILS_SQL: &'static str = "SELECT e.ZADDRESS AS handle, e.ZLABEL AS label, r.Z_PK AS record,
                r.ZFIRSTNAME, r.ZLASTNAME, r.ZNICKNAME, r.ZORGANIZATION
           FROM ZABCDEMAILADDRESS e
           JOIN ZABCDRECORD r ON r.Z_PK = e.ZOWNER
          WHERE e.ZADDRESS IS NOT NULL";

/// One address of one record, as a Contacts database stores it. A column that
/// is missing or cannot be read as what it should be is `None`.
#[derive(Debug)]
pub struct ContactRow {
    pub handle: Option<String>,
    pub label: Option<String>,
    pub record: Option<i64>,
    pub first: Option<String>,
    pub last: Option<String>,
    pub nickname: Option<String>,
    pub organization: Option<String>,
}

/// A column's text without the space around it, if that leaves anything.
pub open spec fn present(column: Option<Seq<char>>) -> Option<Seq<char>> {
    match column {
        Some(text) => if text::trim(text).len() > 0 {
            Some(text::trim(text))
        } else {
            None
        },
        None => None,
    }
}

/// The name a record is filed under: first and last name, or whichever there
/// is, or the organization.
pub open spec fn filed(row: ContactRow) -> Option<Seq<char>> {
    match (present(text::maybe(row.first)), present(text::maybe(row.last))) {
        (Some(first), Some(last)) => Some(first + " "@ + last),
        (Some(first), None) => Some(first),
        (None, Some(last)) => Some(last),
        (None, None) => present(text::maybe(row.organization)),
    }
}

/// What to call a record, and what else it answers to.
pub open spec fn names(row: ContactRow) -> Option<(Seq<char>, Option<Seq<char>>)> {
    match present(text::maybe(row.nickname)) {
        Some(nickname) => Some((nickname, filed(row))),
        None => match filed(row) {
            Some(filed) => Some((filed, None)),
            None => None,
        },
    }
}

/// A column's text without the space around it, if that leaves anything.
fn present_text(column: &Option<String>) -> (out: Option<String>)
    ensures
        text::maybe(out) == present(text::maybe(*column)),
{
    match column {
        None => None,
        Some(raw) => {
            let chars = chars_of(raw.as_str());
            let kept = trimmed(&chars);
            if kept.len() == 0 {
                None
            } else {
                Some(text_of(&kept))
            }
        },
    }
}

/// What to call a record, and what else it answers to.
///
/// A nickname wins the display, because it is what the person is actually
/// called and recording it in Contacts is how you say so. The filed name comes
/// back as the second half of the pair so that it still finds them. When there
/// is no nickname the filed name is shown and there is no second name at all.
pub fn person_names(row: &ContactRow) -> (out: Option<(String, Option<String>)>)
    ensures
        match out {
            Some((name, filed_as)) => names(*row) == Some((name@, text::maybe(filed_as))),
            None => names(*row) is None,
        },
{
    let first = present_text(&row.first);
    let last = present_text(&row.last);
    let filed = match (first, last) {
        (Some(first), Some(last)) => {
            let mut both: String = first;
            both.append(" ");
            both.append(last.as_str());
            Some(both)
        },
        (Some(first), None) => Some(first),
        (None, Some(last)) => Some(last),
        (None, None) => present_text(&row.organization),
    };
    match present_text(&row.nickname) {
        Some(nickname) => Some((nickname, filed)),
        None => match filed {
            Some(filed) => Some((filed, None)),
            None => None,
        },
    }
}

/// The label as the database stores it, made presentable. A constant of
/// Apple's, `_$!<Mobile>!$_`, unwraps to `mobile`.
pub open spec fn tidied(raw: Option<Seq<char>>) -> Option<Seq<char>> {
    match raw {
        None => None,
        Some(raw) => {
            let label = text::trim(raw);
            let rest = label.skip(4);
            if "_$!<"@.is_prefix_of(label) && ">!$_"@.is_suffix_of(rest) {
                Some(text::lowercase(rest.take(rest.len() - 4)))
            } else if label.len() == 0 {
                None
            } else {
                Some(label)
            }
        },
    }
}

/// The label as the database stores it, made presentable. Apple's constants
/// arrive as `_$!<Mobile>!$_` and unwrap to `mobile`; a label somebody typed
/// themselves is kept as typed; empty and missing are the same absence.
pub fn tidy_label(raw: Option<&str>) -> (out: Option<String>)
    ensures
        text::maybe(out) == tidied(text::maybe_str(raw)),
{
    let raw = match raw {
        Some(raw) => raw,
        None => return None,
    };
    let chars = chars_of(raw);
    let label = trimmed(&chars);
    let opening = chars_of("_$!<");
    let closing = chars_of(">!$_");
    proof {
        reveal_strlit("_$!<");
        reveal_strlit(">!$_");
    }
    if opens_with(&label, &opening) {
        let mut rest: Vec<char> = Vec::new();
        for i in 4..label.len()
            invariant
                label@.len() >= 4,
                rest@ == label@.subrange(4, i as int),
        {
            rest.push(label[i]);
        }
        assert(rest@ =~= label@.skip(4));
        if ends_with(&rest, &closing) {
            assert(rest@.take(rest@.len() - 4) =~= rest@.subrange(0, rest@.len() - 4));
            let constant = slice_text(&rest, 0, rest.len() - 4);
            return Some(constant.to_lowercase());
        }
    }
    if label.len() == 0 {
        return None;
    }
    Some(text_of(&label))
}

/// The entry a row makes: nothing where it has no usable address, record or
/// name.
pub open spec fn entry(source: Seq<char>, row: ContactRow) -> Option<ContactView> {
    if row.handle is None || contacts::key(row.handle->0@) is None || row.record is None || names(
        row,
    ) is None {
        None
    } else {
        Some(
            ContactView {
                id: source + ":"@ + text::decimal(row.record->0 as int),
                handle: row.handle->0@,
                name: (names(row)->0).0,
                filed_as: (names(row)->0).1,
                label: tidied(text::maybe(row.label)),
            },
        )
    }
}

/// The index after the rows of one source have been offered to it, the first
/// row for a handle winning.
pub open spec fn gathered(
    into: Seq<ContactView>,
    source: Seq<char>,
    rows: Seq<ContactRow>,
) -> Seq<ContactView>
    decreases rows.len(),
{
    if rows.len() == 0 {
        into
    } else {
        let before = gathered(into, source, rows.drop_last());
        match entry(source, rows.last()) {
            Some(contact) => contacts::offered(before, contact),
            None => before,
        }
    }
}

/// The entry a row makes.
fn entry_of(source: &str, row: &ContactRow) -> (out: Option<Contact>)
    ensures
        match out {
            Some(contact) => entry(source@, *row) == Some(contact@),
            None => entry(source@, *row) is None,
        },
{
    let handle = match &row.handle {
        Some(handle) => handle,
        None => return None,
    };
    if handle_key(handle.as_str()).is_none() {
        return None;
    }
    let record: i64 = match row.record {
        Some(record) => record,
        None => return None,
    };
    let (name, filed_as) = match person_names(row) {
        Some(pair) => pair,
        None => return None,
    };
    let mut id: String = source.to_owned();
    id.append(":");
    id.append(decimal_of(record).as_str());
    Some(
        Contact {
            id,
            handle: handle.clone(),
            name,
            filed_as,
            label: tidy_label(borrowed(&row.label)),
        },
    )
}

/// Offer the rows of one source to an index.
///
/// Record ids are only unique within their own database, so the source they
/// came from goes in front of them.
pub fn collect(into: ContactIndex, source: &str, rows: &[ContactRow]) -> (out: ContactIndex)
    ensures
        out@.contacts == gathered(into@.contacts, source@, rows@),
        out@.problems == into@.problems,
{
    let ghost start = into@;
    let mut out = into;
    for i in 0..rows.len()
        invariant
            out@.contacts == gathered(start.contacts, source@, rows@.take(i as int)),
            out@.problems == start.problems,
    {
        proof {
            assert(rows@.take(i + 1).drop_last() =~= rows@.take(i as int));
            assert(rows@.take(i + 1).last() == rows@[i as int]);
        }
        if let Some(contact) = entry_of(source, &rows[i]) {
            out = out.offer(contact);
        }
    }
    assert(rows@.take(rows@.len() as int) =~= rows@);
    out
}

/// An index after another's entries have been offered to it.
pub open spec fn merged(into: Seq<ContactView>, from: Seq<ContactView>) -> Seq<ContactView>
    decreases from.len(),
{
    if from.len() == 0 {
        into
    } else {
        contacts::offered(merged(into, from.drop_last()), from.last())
    }
}

/// Offer everything in one index to another, which keeps what it has.
pub fn merge(into: ContactIndex, from: &ContactIndex) -> (out: ContactIndex)
    ensures
        out@.contacts == merged(into@.contacts, from@.contacts),
        out@.problems == into@.problems,
{
    let ghost start = into@;
    let ghost all = from@.contacts;
    let from = from.entries();
    let mut out = into;
    assert(all.take(0) =~= Seq::<ContactView>::empty());
    for i in 0..from.len()
        invariant
            all == contacts::contact_views(from@),
            out@.contacts == merged(start.contacts, all.take(i as int)),
            out@.problems == start.problems,
    {
        proof {
            assert(all.take(i + 1).drop_last() =~= all.take(i as int));
            assert(all.take(i + 1).last() == from@[i as int]@);
        }
        out = out.offer(from[i].clone());
    }
    assert(all.take(all.len() as int) =~= all);
    out
}

/// One account's database: which source it belongs to, and what it holds.
pub struct SourceContacts {
    /// `None` for the legacy top-level database, which belongs to no account.
    pub source: Option<String>,
    pub contacts: ContactIndex,
}

/// The source identifier a database belongs to, taken from the name of the
/// directory it is in.
pub fn source_id_of(directory: Option<&str>) -> (out: Option<String>)
    ensures
        text::maybe(out) == (match directory {
            Some(name) => if name@ == "AddressBook"@ {
                None
            } else {
                Some(name@)
            },
            None => None,
        }),
{
    match directory {
        Some(name) => if same(name, "AddressBook") {
            None
        } else {
            Some(name.to_owned())
        },
        None => None,
    }
}

/// An index after the sources that are, or are not, the preferred one have been
/// merged into it in order.
pub open spec fn merged_where(
    into: Seq<ContactView>,
    sources: Seq<SourceContacts>,
    preferred: Option<Seq<char>>,
    wanted: bool,
) -> Seq<ContactView>
    decreases sources.len(),
{
    if sources.len() == 0 {
        into
    } else {
        let before = merged_where(into, sources.drop_last(), preferred, wanted);
        if (text::maybe(sources.last().source) == preferred) == wanted {
            merged(before, sources.last().contacts@.contacts)
        } else {
            before
        }
    }
}

/// [`merged_where`], computed.
fn merge_where(
    into: ContactIndex,
    sources: &[SourceContacts],
    preferred: Option<&str>,
    wanted: bool,
) -> (out: ContactIndex)
    ensures
        out@.contacts == merged_where(
            into@.contacts,
            sources@,
            text::maybe_str(preferred),
            wanted,
        ),
        out@.problems == into@.problems,
{
    let ghost start = into@;
    let mut out = into;
    for i in 0..sources.len()
        invariant
            out@.contacts == merged_where(
                start.contacts,
                sources@.take(i as int),
                text::maybe_str(preferred),
                wanted,
            ),
            out@.problems == start.problems,
    {
        proof {
            assert(sources@.take(i + 1).drop_last() =~= sources@.take(i as int));
            assert(sources@.take(i + 1).last() == sources@[i as int]);
        }
        if same_maybe(borrowed(&sources[i].source), preferred) == wanted {
            out = merge(out, &sources[i].contacts);
        }
    }
    assert(sources@.take(sources@.len() as int) =~= sources@);
    out
}

/// Every source in one index, the preferred source first so that its name for a
/// handle wins.
///
/// With no preferred source named, the legacy top-level database is the
/// preferred one.
pub fn load_sources(sources: &[SourceContacts], preferred: Option<&str>, problems: Vec<String>) -> (out:
    ContactIndex)
    ensures
        out@.contacts == merged_where(
            merged_where(
                Seq::<ContactView>::empty(),
                sources@,
                text::maybe_str(preferred),
                true,
            ),
            sources@,
            text::maybe_str(preferred),
            false,
        ),
        out@.problems == text::all_of(problems@),
{
    let first = merge_where(ContactIndex::empty(), sources, preferred, true);
    let mut out = merge_where(first, sources, preferred, false);
    assert(text::all_of(problems@.take(0)) =~= Seq::<Seq<char>>::empty());
    for i in 0..problems.len()
        invariant
            out@.contacts == merged_where(
                merged_where(
                    Seq::<ContactView>::empty(),
                    sources@,
                    text::maybe_str(preferred),
                    true,
                ),
                sources@,
                text::maybe_str(preferred),
                false,
            ),
            out@.problems == text::all_of(problems@.take(i as int)),
    {
        assert(text::all_of(problems@.take(i + 1)) =~= text::all_of(problems@.take(i as int)).push(
            problems@[i as int]@,
        ));
        out = out.with_problem(problems[i].as_str());
    }
    assert(problems@.take(problems@.len() as int) =~= problems@);
    out
}

/// Merging never takes anybody away: whoever an index reaches by a handle, it
/// reaches by it still.
pub proof fn merging_keeps_what_is_held(
    into: Seq<ContactView>,
    from: Seq<ContactView>,
    handle: Seq<char>,
)
    requires
        contacts::held(into, handle) is Some,
    ensures
        contacts::held(merged(into, from), handle) == contacts::held(into, handle),
    decreases from.len(),
{
    if from.len() > 0 {
        let before = merged(into, from.drop_last());
        merging_keeps_what_is_held(into, from.drop_last(), handle);
        if contacts::key(from.last().handle) is Some && contacts::place(
            before,
            contacts::key(from.last().handle)->0,
        ) is None {
            let after = before.push(from.last());
            assert(after.drop_last() =~= before);
            contacts::place_is_first(before, contacts::key(handle)->0);
        }
    }
}

/// The preferred source wins every handle it has: once its entry is in, no
/// later source changes it.
pub proof fn the_preferred_source_wins(
    into: Seq<ContactView>,
    sources: Seq<SourceContacts>,
    preferred: Option<Seq<char>>,
    handle: Seq<char>,
)
    requires
        contacts::held(merged_where(into, sources, preferred, true), handle) is Some,
    ensures
        contacts::held(
            merged_where(
                merged_where(into, sources, preferred, true),
                sources,
                preferred,
                false,
            ),
            handle,
        ) == contacts::held(merged_where(into, sources, preferred, true), handle),
{
    later_sources_change_nothing(
        merged_where(into, sources, preferred, true),
        sources,
        preferred,
        handle,
    );
}

proof fn later_sources_change_nothing(
    into: Seq<ContactView>,
    sources: Seq<SourceContacts>,
    preferred: Option<Seq<char>>,
    handle: Seq<char>,
)
    requires
        contacts::held(into, handle) is Some,
    ensures
        contacts::held(merged_where(into, sources, preferred, false), handle) == contacts::held(
            into,
            handle,
        ),
    decreases sources.len(),
{
    if sources.len() > 0 {
        later_sources_change_nothing(into, sources.drop_last(), preferred, handle);
        let before = merged_where(into, sources.drop_last(), preferred, false);
        if (text::maybe(sources.last().source) == preferred) == false {
            merging_keeps_what_is_held(before, sources.last().contacts@.contacts, handle);
        }
    }
}

/// What the record ids of a source are told apart by. The legacy top-level
/// database has no directory to name it, and `local` keeps it from colliding
/// with an account's.
pub fn source_label(source: Option<&str>) -> (out: String)
    ensures
        out@ == (match source {
            Some(name) => name@,
            None => "local"@,
        }),
{
    match source {
        Some(name) => name.to_owned(),
        None => "local".to_owned(),
    }
}

/// What is wrong with a Contacts directory as a whole: that it is not there, or
/// that it holds no database and nothing else has been said of why.
pub fn book_problem(book: &str, there: bool, databases: usize, problems: usize) -> (out: Option<
    String,
>)
    ensures
        !there ==> text::maybe(out) == Some("no Contacts directory at "@ + book@),
        there && databases == 0 && problems == 0 ==> text::maybe(out) == Some(
            "no Contacts databases under "@ + book@,
        ),
        there && (databases > 0 || problems > 0) ==> out is None,
{
    let mut message: String = if !there {
        "no Contacts directory at ".to_owned()
    } else if databases == 0 && problems == 0 {
        "no Contacts databases under ".to_owned()
    } else {
        return None;
    };
    message.append(book);
    Some(message)
}

/// A column with something in it besides space.
pub open spec fn says_something(column: Option<String>) -> bool {
    column is Some && text::trim(column->0@).len() > 0
}

/// What a record is shown as, told by its columns: the nickname where there is one;
/// and where there is none the first and last name, or the one of them there is, or
/// the organization. Only a record that says nothing at all has no name, and only
/// one with a nickname has a second name.
pub proof fn a_record_is_shown_by_its_names(row: ContactRow)
    ensures
        says_something(row.nickname) ==> names(row) is Some && (names(row)->0).0 == text::trim(
            row.nickname->0@,
        ),
        !says_something(row.nickname) && says_something(row.first) && says_something(row.last)
            ==> names(row) == Some(
            (
                text::trim(row.first->0@) + " "@ + text::trim(row.last->0@),
                None::<Seq<char>>,
            ),
        ),
        !says_something(row.nickname) && says_something(row.first) && !says_something(row.last)
            ==> names(row) == Some((text::trim(row.first->0@), None::<Seq<char>>)),
        !says_something(row.nickname) && !says_something(row.first) && says_something(row.last)
            ==> names(row) == Some((text::trim(row.last->0@), None::<Seq<char>>)),
        !says_something(row.nickname) && !says_something(row.first) && !says_something(row.last)
            && says_something(row.organization) ==> names(row) == Some(
            (text::trim(row.organization->0@), None::<Seq<char>>),
        ),
        names(row) is None <==> !says_something(row.nickname) && !says_something(row.first)
            && !says_something(row.last) && !says_something(row.organization),
{
}

/// A nickname takes nothing away: the name the record would be shown as without it
/// is the second name it has with it.
pub proof fn a_nickname_keeps_the_filed_name(row: ContactRow, plain: ContactRow)
    requires
        says_something(row.nickname),
        plain == (ContactRow { nickname: None, ..row }),
    ensures
        names(row) is Some,
        (names(row)->0).1 == (match names(plain) {
            Some(pair) => Some(pair.0),
            None => None,
        }),
{
}

/// A row with an address, a record and any name at all makes an entry: under that
/// address and that record of its source, with its label.
pub proof fn a_row_that_names_somebody_is_an_entry(source: Seq<char>, row: ContactRow)
    requires
        row.handle is Some,
        contacts::key(row.handle->0@) is Some,
        row.record is Some,
        says_something(row.nickname) || says_something(row.first) || says_something(row.last)
            || says_something(row.organization),
    ensures
        entry(source, row) is Some,
        entry(source, row)->0.handle == row.handle->0@,
        entry(source, row)->0.id == source + ":"@ + text::decimal(row.record->0 as int),
        entry(source, row)->0.name.len() > 0,
        entry(source, row)->0.name == (names(row)->0).0,
        entry(source, row)->0.filed_as == (names(row)->0).1,
        entry(source, row)->0.label == tidied(text::maybe(row.label)),
{
}

/// Everybody who is read is reached: whatever rows stand around it, the handle of a
/// row that makes an entry finds one, and finds this one unless the handle was taken
/// before it.
pub proof fn a_row_is_reached_by_its_handle(
    into: Seq<ContactView>,
    source: Seq<char>,
    rows: Seq<ContactRow>,
    i: int,
)
    requires
        0 <= i < rows.len(),
        entry(source, rows[i]) is Some,
    ensures
        contacts::held(gathered(into, source, rows), rows[i].handle->0@) is Some,
        contacts::held(gathered(into, source, rows.take(i)), rows[i].handle->0@) is None
            ==> contacts::held(gathered(into, source, rows), rows[i].handle->0@) == entry(
            source,
            rows[i],
        ),
    decreases rows.len(),
{
    let handle = rows[i].handle->0@;
    let wanted = contacts::key(handle)->0;
    let front = rows.drop_last();
    let before = gathered(into, source, front);
    contacts::place_is_first(before, wanted);
    if i == rows.len() - 1 {
        assert(rows.take(i) =~= front);
        let contact = entry(source, rows[i])->0;
        assert(contact.handle == handle);
        if contacts::place(before, wanted) is None {
            assert(before.push(contact).drop_last() =~= before);
        }
    } else {
        a_row_is_reached_by_its_handle(into, source, front, i);
        assert(front.take(i) =~= rows.take(i));
        if let Some(contact) = entry(source, rows.last()) {
            if contacts::key(contact.handle) is Some && contacts::place(
                before,
                contacts::key(contact.handle)->0,
            ) is None {
                assert(before.push(contact).drop_last() =~= before);
            }
        }
    }
}

/// Reading a source changes nothing that was reached before it.
pub proof fn gathering_keeps_what_is_held(
    into: Seq<ContactView>,
    source: Seq<char>,
    rows: Seq<ContactRow>,
    handle: Seq<char>,
)
    requires
        contacts::held(into, handle) is Some,
    ensures
        contacts::held(gathered(into, source, rows), handle) == contacts::held(into, handle),
    decreases rows.len(),
{
    if rows.len() > 0 {
        let before = gathered(into, source, rows.drop_last());
        gathering_keeps_what_is_held(into, source, rows.drop_last(), handle);
        if let Some(contact) = entry(source, rows.last()) {
            if contacts::key(contact.handle) is Some && contacts::place(
                before,
                contacts::key(contact.handle)->0,
            ) is None {
                assert(before.push(contact).drop_last() =~= before);
                contacts::place_is_first(before, contacts::key(handle)->0);
            }
        }
    }
}

/// Everybody any source holds is reached in the end, whichever is preferred.
pub proof fn every_source_is_merged(
    sources: Seq<SourceContacts>,
    preferred: Option<Seq<char>>,
    i: int,
    handle: Seq<char>,
)
    requires
        0 <= i < sources.len(),
        contacts::held(sources[i].contacts@.contacts, handle) is Some,
    ensures
        contacts::held(
            merged_where(
                merged_where(Seq::<ContactView>::empty(), sources, preferred, true),
                sources,
                preferred,
                false,
            ),
            handle,
        ) is Some,
{
    let first = merged_where(Seq::<ContactView>::empty(), sources, preferred, true);
    let wanted = text::maybe(sources[i].source) == preferred;
    if wanted {
        a_source_is_merged(Seq::<ContactView>::empty(), sources, preferred, true, i, handle);
        later_sources_change_nothing(first, sources, preferred, handle);
    } else {
        a_source_is_merged(first, sources, preferred, false, i, handle);
    }
}

proof fn a_source_is_merged(
    into: Seq<ContactView>,
    sources: Seq<SourceContacts>,
    preferred: Option<Seq<char>>,
    wanted: bool,
    i: int,
    handle: Seq<char>,
)
    requires
        0 <= i < sources.len(),
        contacts::held(sources[i].contacts@.contacts, handle) is Some,
        (text::maybe(sources[i].source) == preferred) == wanted,
    ensures
        contacts::held(merged_where(into, sources, preferred, wanted), handle) is Some,
    decreases sources.len(),
{
    let before = merged_where(into, sources.drop_last(), preferred, wanted);
    if i == sources.len() - 1 {
        everything_is_offered(before, sources[i].contacts@.contacts, handle);
    } else {
        a_source_is_merged(into, sources.drop_last(), preferred, wanted, i, handle);
        if (text::maybe(sources.last().source) == preferred) == wanted {
            merging_keeps_what_is_held(before, sources.last().contacts@.contacts, handle);
        }
    }
}

/// Whoever an index that is merged reaches, the merged one reaches.
proof fn everything_is_offered(into: Seq<ContactView>, from: Seq<ContactView>, handle: Seq<char>)
    requires
        contacts::held(from, handle) is Some,
    ensures
        contacts::held(merged(into, from), handle) is Some,
    decreases from.len(),
{
    let wanted = contacts::key(handle)->0;
    let before = merged(into, from.drop_last());
    contacts::place_is_first(before, wanted);
    if contacts::place(from.drop_last(), wanted) is Some {
        everything_is_offered(into, from.drop_last(), handle);
        let last = from.last();
        if contacts::key(last.handle) is Some && contacts::place(
            before,
            contacts::key(last.handle)->0,
        ) is None {
            assert(before.push(last).drop_last() =~= before);
        }
    } else if contacts::place(before, wanted) is None {
        assert(before.push(from.last()).drop_last() =~= before);
    }
}

/// A label of Apple's is the word inside it, in lowercase; one somebody typed is
/// what they typed; and one with nothing in it is none.
pub proof fn a_label_is_the_word_in_it(word: Seq<char>, typed: Seq<char>)
    ensures
        tidied(Some("_$!<"@ + word + ">!$_"@)) == Some(text::lowercase(word)),
        tidied(None) is None,
        text::trim(typed).len() == 0 ==> tidied(Some(typed)) is None,
        text::trim(typed).len() > 0 && !"_$!<"@.is_prefix_of(text::trim(typed)) ==> tidied(
            Some(typed),
        ) == Some(text::trim(typed)),
{
    reveal_strlit("_$!<");
    reveal_strlit(">!$_");
    let raw = "_$!<"@ + word + ">!$_"@;
    assert(raw[0] == '_' && raw.last() == '_');
    assert(text::trim_start(raw) == raw);
    assert(text::trim(raw) == raw);
    let rest = raw.skip(4);
    assert("_$!<"@.is_prefix_of(raw));
    assert(rest =~= word + ">!$_"@);
    assert(">!$_"@.is_suffix_of(rest)) by {
        assert(rest.skip(rest.len() - 4) =~= ">!$_"@);
    }
    assert(rest.take(rest.len() - 4) =~= word);
}

/// A record is its own person: the same number in two sources is two, and two numbers in
/// one source are two as well.
pub proof fn a_record_is_told_by_its_source_and_number(
    source: Seq<char>,
    other: Seq<char>,
    row: ContactRow,
    another: ContactRow,
)
    requires
        entry(source, row) is Some,
        entry(other, row) is Some,
        entry(source, another) is Some,
        row.record->0 >= 0,
        another.record->0 >= 0,
    ensures
        entry(source, row)->0.id == entry(other, row)->0.id <==> source == other,
        entry(source, row)->0.id == entry(source, another)->0.id <==> row.record
            == another.record,
{
    let number = text::decimal(row.record->0 as int);
    let mine = source + ":"@ + number;
    let theirs = other + ":"@ + number;
    if mine == theirs {
        assert(mine.len() == source.len() + ":"@.len() + number.len());
        assert(theirs.len() == other.len() + ":"@.len() + number.len());
        assert(mine.take(source.len() as int) =~= source);
        assert(theirs.take(other.len() as int) =~= other);
    }
    let second = text::decimal(another.record->0 as int);
    let beside = source + ":"@ + second;
    if mine == beside {
        let at = (source + ":"@).len() as int;
        assert(mine.skip(at) =~= number);
        assert(beside.skip(at) =~= second);
        text::a_number_reads_back(row.record->0 as nat);
        text::a_number_reads_back(another.record->0 as nat);
    }
}

} // verus!
