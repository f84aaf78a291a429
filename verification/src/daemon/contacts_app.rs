//! Driving Contacts over Apple Events.
//!
//! Only the daemon does this, for the reason sending lives there: the Automation
//! grant lands on whichever process asks. The scripts are deliberately dumb —
//! find, create, read, set, append, one purpose each — and everything above them
//! is decided here.
use vstd::prelude::*;

use crate::contacts::{self, ContactIndex, PersonView, handle_key};
use crate::daemon::protocol::{PersonAddRequest, PersonUpdateRequest, PersonWriteReply};
use crate::daemon::send::{Script, pair};
use crate::people::is_among;
use crate::text::{self, borrowed, chars_of, lines_of, slice_text, text_has, trim_text};
use crate::{Error, ErrorView};

verus! {

/// A multi-valued field on a card.
#[derive(Debug, Clone, Copy, PartialEq, Eq, Structural)]
pub enum ValueField {
    Phone,
    Email,
}

/// What a field is called, to a reader and in Contacts' own dictionary.
pub open spec fn value_noun(field: ValueField) -> Seq<char> {
    match field {
        ValueField::Phone => "phone"@,
        ValueField::Email => "email"@,
    }
}

/// What the list of a field is called in Contacts' dictionary.
pub open spec fn value_nouns(field: ValueField) -> Seq<char> {
    match field {
        ValueField::Phone => "phones"@,
        ValueField::Email => "emails"@,
    }
}

impl ValueField {
    /// What this field is called.
    pub fn label(self) -> (out: &'static str)
        ensures
            out@ == value_noun(self),
    {
        match self {
            ValueField::Phone => "phone",
            ValueField::Email => "email",
        }
    }

    /// What the list of this field is called.
    fn plural(self) -> (out: &'static str)
        ensures
            out@ == value_nouns(self),
    {
        match self {
            ValueField::Phone => "phones",
            ValueField::Email => "emails",
        }
    }
}

/// A single-valued field, replaced outright when it is set.
#[derive(Debug, Clone, Copy, PartialEq, Eq, Structural)]
pub enum TextField {
    Title,
    Org,
    Note,
}

/// What a field is called to a reader.
pub open spec fn text_noun(field: TextField) -> Seq<char> {
    match field {
        TextField::Title => "title"@,
        TextField::Org => "org"@,
        TextField::Note => "note"@,
    }
}

/// What a field is called in Contacts' own dictionary.
pub open spec fn text_property(field: TextField) -> Seq<char> {
    match field {
        TextField::Title => "job title"@,
        TextField::Org => "organization"@,
        TextField::Note => "note"@,
    }
}

impl TextField {
    /// What this field is called to a reader.
    pub fn label(self) -> (out: &'static str)
        ensures
            out@ == text_noun(self),
    {
        match self {
            TextField::Title => "title",
            TextField::Org => "org",
            TextField::Note => "note",
        }
    }

    /// What this field is called in Contacts' own dictionary.
    fn property(self) -> (out: &'static str)
        ensures
            out@ == text_property(self),
    {
        match self {
            TextField::Title => "job title",
            TextField::Org => "organization",
            TextField::Note => "note",
        }
    }
}

/// What holds the cards. What crosses this boundary is small on purpose: ids,
/// names and field values.
pub trait ContactStore {
    /// Ids of every person whose name is exactly `name`.
    fn find(&self, name: &str) -> Result<Vec<String>, Error>;

    /// Create a person and answer their id. `last` may be empty.
    fn create(&self, first: &str, last: &str) -> Result<String, Error>;

    /// Every stored value of one multi-valued field.
    fn values(&self, id: &str, field: ValueField) -> Result<Vec<String>, Error>;

    /// Append one value to a multi-valued field.
    fn append(&self, id: &str, field: ValueField, value: &str) -> Result<(), Error>;

    /// Replace a single-valued field.
    fn set(&self, id: &str, field: TextField, value: &str) -> Result<(), Error>;
}

/// Contacts itself, one script per operation.
pub struct ContactsApp;

/// The ids are joined with linefeeds rather than returned as a list, because a
/// list is printed comma-joined, and a phone value can hold a comma where it can
/// never hold a linefeed.
pub const FIND: &'static str = "
on run {personName}
  set text item delimiters to linefeed
  tell application \"Contacts\"
    return (id of every person whose name is personName) as text
  end tell
end run
";

pub const CREATE: &'static str = "
on run {firstName, lastName}
  tell application \"Contacts\"
    if lastName is \"\" then
      set newPerson to make new person with properties {first name:firstName}
    else
      set newPerson to make new person with properties {first name:firstName, last name:lastName}
    end if
    save
    return id of newPerson
  end tell
end run
";

/// The script that reads a multi-valued field.
pub open spec fn values_script(field: ValueField) -> Seq<char> {
    "
on run {personId}
  set text item delimiters to linefeed
  tell application \"Contacts\"
    return (value of every "@ + value_noun(field) + " of person id personId) as text
  end tell
end run
"@
}

/// The script that appends to a multi-valued field.
pub open spec fn append_script(field: ValueField) -> Seq<char> {
    "
on run {personId, newValue}
  tell application \"Contacts\"
    make new "@ + value_noun(field) + " at end of "@ + value_nouns(field)
        + " of person id personId with properties {value:newValue}
    save
  end tell
end run
"@
}

/// The script that replaces a single-valued field.
pub open spec fn set_script(field: TextField) -> Seq<char> {
    "
on run {personId, newValue}
  tell application \"Contacts\"
    set "@ + text_property(field) + " of person id personId to newValue
    save
  end tell
end run
"@
}

/// One argument.
fn only(first: &str) -> (out: Vec<String>)
    ensures
        text::all_of(out@) == seq![first@],
{
    let mut out: Vec<String> = Vec::new();
    out.push(first.to_owned());
    assert(text::all_of(out@) =~= seq![first@]);
    out
}

impl ContactsApp {
    /// The script that finds everyone with a name.
    pub fn find(name: &str) -> (out: Script)
        ensures
            out.source@ == FIND@,
            text::all_of(out.args@) == seq![name@],
    {
        Script { source: FIND.to_owned(), args: only(name) }
    }

    /// The script that creates a person.
    pub fn create(first: &str, last: &str) -> (out: Script)
        ensures
            out.source@ == CREATE@,
            text::all_of(out.args@) == seq![first@, last@],
    {
        Script { source: CREATE.to_owned(), args: pair(first, last) }
    }

    /// The script that reads a multi-valued field.
    pub fn values(id: &str, field: ValueField) -> (out: Script)
        ensures
            out.source@ == values_script(field),
            text::all_of(out.args@) == seq![id@],
    {
        let mut source: String = "
on run {personId}
  set text item delimiters to linefeed
  tell application \"Contacts\"
    return (value of every ".to_owned();
        source.append(field.label());
        source.append(" of person id personId) as text
  end tell
end run
");
        Script { source, args: only(id) }
    }

    /// The script that appends to a multi-valued field.
    pub fn append(id: &str, field: ValueField, value: &str) -> (out: Script)
        ensures
            out.source@ == append_script(field),
            text::all_of(out.args@) == seq![id@, value@],
    {
        let mut source: String = "
on run {personId, newValue}
  tell application \"Contacts\"
    make new ".to_owned();
        source.append(field.label());
        source.append(" at end of ");
        source.append(field.plural());
        source.append(" of person id personId with properties {value:newValue}
    save
  end tell
end run
");
        Script { source, args: pair(id, value) }
    }

    /// The script that replaces a single-valued field.
    pub fn set(id: &str, field: TextField, value: &str) -> (out: Script)
        ensures
            out.source@ == set_script(field),
            text::all_of(out.args@) == seq![id@, value@],
    {
        let mut source: String = "
on run {personId, newValue}
  tell application \"Contacts\"
    set ".to_owned();
        source.append(field.property());
        source.append(" of person id personId to newValue
    save
  end tell
end run
");
        Script { source, args: pair(id, value) }
    }
}

/// What a refused Apple Event is told as.
pub const REFUSED: &'static str = "msgd is not allowed to drive Contacts.
Allow it under System Settings > Privacy & Security > Automation > msgd > Contacts.
The entry appears after the first refused attempt; declining the prompt is what
creates it.";

/// What a script that failed means, by what it said. macOS reports a refused
/// Apple Event as error -1743 whether the prompt was declined or the switch was
/// later turned off.
pub open spec fn failure(stderr: Seq<char>) -> ErrorView {
    if text::contains(stderr, "-1743"@) || text::contains(stderr, "Not authorized"@) {
        ErrorView::AccessDenied(REFUSED@)
    } else {
        ErrorView::Other(stderr)
    }
}

/// What a script that failed means: a refused Apple Event is told apart from an
/// ordinary failure, so that it can name the remedy.
pub fn classify(stderr: &str) -> (out: Error)
    ensures
        out@ == failure(stderr@),
{
    if text_has(stderr, "-1743") || text_has(stderr, "Not authorized") {
        return Error::AccessDenied(REFUSED.to_owned());
    }
    Error::other(stderr)
}

/// A text without the line endings it ends with.
pub open spec fn unended(s: Seq<char>) -> Seq<char>
    decreases s.len(),
{
    if s.len() > 0 && (s.last() == '\n' || s.last() == '\r') {
        unended(s.drop_last())
    } else {
        s
    }
}

/// What came of a script: what it printed, or what its failure means.
pub fn ran(success: bool, stdout: &str, stderr: &str, status: &str) -> (out: Result<String, Error>)
    ensures
        out is Ok <==> success,
        out matches Ok(printed) ==> printed@ == unended(stdout@),
        out matches Err(error) ==> error@ == (if text::trim(stderr@).len() == 0 {
            ErrorView::Other("osascript failed: "@ + status@)
        } else {
            failure(text::trim(stderr@))
        }),
{
    if success {
        let chars = chars_of(stdout);
        let mut end: usize = chars.len();
        assert(chars@.take(end as int) =~= chars@);
        while end > 0 && (chars[end - 1] == '\n' || chars[end - 1] == '\r')
            invariant
                end <= chars@.len(),
                unended(chars@) == unended(chars@.take(end as int)),
            decreases end,
        {
            assert(chars@.take(end as int).drop_last() =~= chars@.take(end - 1));
            end -= 1;
        }
        let printed = slice_text(&chars, 0, end);
        assert(printed@ =~= chars@.take(end as int));
        return Ok(printed);
    }
    let words = trim_text(stderr);
    if words.as_str().is_empty() {
        let mut message: String = "osascript failed: ".to_owned();
        message.append(status);
        Err(Error::Other(message))
    } else {
        Err(classify(words.as_str()))
    }
}

/// Those of `all` that are not empty.
pub open spec fn filled(all: Seq<Seq<char>>) -> Seq<Seq<char>>
    decreases all.len(),
{
    if all.len() == 0 {
        Seq::empty()
    } else if all.last().len() == 0 {
        filled(all.drop_last())
    } else {
        filled(all.drop_last()).push(all.last())
    }
}

/// What was printed, a value a line.
pub fn lines(printed: &str) -> (out: Vec<String>)
    ensures
        text::all_of(out@) == filled(text::lines(printed@)),
{
    let all = lines_of(printed);
    let ghost said = text::lines(printed@);
    let mut out: Vec<String> = Vec::new();
    assert(text::all_of(out@) =~= filled(said.take(0)));
    for i in 0..all.len()
        invariant
            text::all_of(all@) == said,
            text::all_of(out@) == filled(said.take(i as int)),
    {
        proof {
            assert(said.take(i + 1).drop_last() =~= said.take(i as int));
            assert(said.take(i + 1).last() == all@[i as int]@);
        }
        let ghost before = text::all_of(out@);
        if !all[i].as_str().is_empty() {
            out.push(all[i].clone());
            assert(text::all_of(out@) =~= before.push(all@[i as int]@));
        }
    }
    assert(said.take(said.len() as int) =~= said);
    out
}

/// The fields a write carries, shared by adding and updating.
pub struct Fields<'a> {
    pub phones: &'a [String],
    pub emails: &'a [String],
    pub title: Option<&'a str>,
    pub org: Option<&'a str>,
    pub note: Option<&'a str>,
}

impl Fields<'_> {
    /// Nothing is carried.
    pub open spec fn carries_nothing(&self) -> bool {
        self.phones@.len() == 0 && self.emails@.len() == 0 && self.title is None && self.org is None
            && self.note is None
    }

    /// Whether nothing is carried.
    pub fn is_empty(&self) -> (yes: bool)
        ensures
            yes == self.carries_nothing(),
    {
        self.phones.len() == 0 && self.emails.len() == 0 && self.title.is_none()
            && self.org.is_none() && self.note.is_none()
    }
}

/// The keys of values, those without one left out.
pub open spec fn keys(values: Seq<Seq<char>>) -> Seq<Seq<char>>
    decreases values.len(),
{
    if values.len() == 0 {
        Seq::empty()
    } else {
        match contacts::key(values.last()) {
            Some(key) => keys(values.drop_last()).push(key),
            None => keys(values.drop_last()),
        }
    }
}

/// What is to be done with the values of one field.
#[verifier::ext_equal]
pub struct Planned {
    /// The values to append to the card.
    pub appends: Seq<Seq<char>>,
    pub changed: Seq<Seq<char>>,
    pub unchanged: Seq<Seq<char>>,
    /// The keys the card holds then.
    pub held: Seq<Seq<char>>,
    /// A value was blank, so the rest is not written.
    pub blank: bool,
}

/// A field and its value, as a reply names them.
pub open spec fn said(label: Seq<char>, value: Seq<char>) -> Seq<char> {
    label + " "@ + value
}

/// What is to be done with one more value.
pub open spec fn plan_next(before: Planned, label: Seq<char>, value: Seq<char>) -> Planned {
    let value = text::trim(value);
    if before.blank {
        before
    } else if value.len() == 0 {
        Planned { blank: true, ..before }
    } else {
        match contacts::key(value) {
            Some(key) => if before.held.contains(key) {
                Planned { unchanged: before.unchanged.push(said(label, value)), ..before }
            } else {
                Planned {
                    appends: before.appends.push(value),
                    changed: before.changed.push(said(label, value)),
                    held: before.held.push(key),
                    ..before
                }
            },
            None => Planned {
                appends: before.appends.push(value),
                changed: before.changed.push(said(label, value)),
                ..before
            },
        }
    }
}

/// What is to be done with values, on a card that holds `held`: those that are
/// new are appended, and those the card has already, in whatever shape, are not.
pub open spec fn planned(
    label: Seq<char>,
    values: Seq<Seq<char>>,
    held: Seq<Seq<char>>,
) -> Planned
    decreases values.len(),
{
    if values.len() == 0 {
        Planned {
            appends: Seq::empty(),
            changed: Seq::empty(),
            unchanged: Seq::empty(),
            held: keys(held),
            blank: false,
        }
    } else {
        plan_next(planned(label, values.drop_last(), held), label, values.last())
    }
}

/// What is to be done with the values of one field.
pub struct Plan {
    pub appends: Vec<String>,
    pub changed: Vec<String>,
    pub unchanged: Vec<String>,
    pub held: Vec<String>,
    pub blank: bool,
}

impl View for Plan {
    type V = Planned;

    open spec fn view(&self) -> Planned {
        Planned {
            appends: text::all_of(self.appends@),
            changed: text::all_of(self.changed@),
            unchanged: text::all_of(self.unchanged@),
            held: text::all_of(self.held@),
            blank: self.blank,
        }
    }
}

/// Add a text to others.
fn push_text(all: &mut Vec<String>, one: String)
    ensures
        text::all_of(final(all)@) == text::all_of(old(all)@).push(one@),
{
    let ghost was = text::all_of(all@);
    let ghost added = one@;
    all.push(one);
    assert(text::all_of(all@) =~= was.push(added));
}

/// A field and its value, as a reply names them.
fn name_value(label: &str, value: &str) -> (out: String)
    ensures
        out@ == said(label@, value@),
{
    let mut out: String = label.to_owned();
    out.append(" ");
    out.append(value);
    out
}

/// What is to be done with the values of one field, on a card that holds `held`.
/// Keyed the way addresses are, so a number retyped in another shape is the same
/// number rather than a second phone.
pub fn plan_values(field: ValueField, values: &[String], held: &[String]) -> (out: Plan)
    ensures
        out@ == planned(value_noun(field), text::all_of(values@), text::all_of(held@)),
{
    let ghost label = value_noun(field);
    let ghost wanted = text::all_of(values@);
    let ghost stored = text::all_of(held@);
    let mut plan = Plan {
        appends: Vec::new(),
        changed: Vec::new(),
        unchanged: Vec::new(),
        held: Vec::new(),
        blank: false,
    };
    assert(text::all_of(plan.held@) =~= keys(stored.take(0)));
    for i in 0..held.len()
        invariant
            stored == text::all_of(held@),
            plan.appends@.len() == 0,
            plan.changed@.len() == 0,
            plan.unchanged@.len() == 0,
            !plan.blank,
            text::all_of(plan.held@) == keys(stored.take(i as int)),
    {
        proof {
            assert(stored.take(i + 1).drop_last() =~= stored.take(i as int));
            assert(stored.take(i + 1).last() == held@[i as int]@);
        }
        if let Some(key) = handle_key(held[i].as_str()) {
            push_text(&mut plan.held, key);
        }
    }
    assert(stored.take(stored.len() as int) =~= stored);
    assert(plan@ =~= planned(label, wanted.take(0), stored));
    for i in 0..values.len()
        invariant
            label == value_noun(field),
            wanted == text::all_of(values@),
            plan@ == planned(label, wanted.take(i as int), stored),
    {
        proof {
            assert(wanted.take(i + 1).drop_last() =~= wanted.take(i as int));
            assert(wanted.take(i + 1).last() == values@[i as int]@);
        }
        let ghost before = plan@;
        let value = trim_text(values[i].as_str());
        if !plan.blank {
            if value.as_str().is_empty() {
                plan.blank = true;
            } else {
                let key = handle_key(value.as_str());
                let has = match &key {
                    Some(key) => is_among(&plan.held, key.as_str()),
                    None => false,
                };
                let named = name_value(field.label(), value.as_str());
                if has {
                    push_text(&mut plan.unchanged, named);
                } else {
                    push_text(&mut plan.appends, value);
                    push_text(&mut plan.changed, named);
                    if let Some(key) = key {
                        push_text(&mut plan.held, key);
                    }
                }
            }
        }
        assert(plan@ =~= plan_next(before, label, values@[i as int]@));
    }
    assert(wanted.take(wanted.len() as int) =~= wanted);
    plan
}

/// Nothing is duplicated: a value the card holds already, in whatever shape, is
/// not appended to it.
pub proof fn what_is_held_is_not_appended(
    label: Seq<char>,
    values: Seq<Seq<char>>,
    held: Seq<Seq<char>>,
    i: int,
)
    requires
        0 <= i < planned(label, values, held).appends.len(),
        contacts::key(planned(label, values, held).appends[i]) is Some,
    ensures
        !keys(held).contains(contacts::key(planned(label, values, held).appends[i])->0),
    decreases values.len(),
{
    if values.len() > 0 {
        let before = planned(label, values.drop_last(), held);
        let after = planned(label, values, held);
        held_is_kept(label, values.drop_last(), held);
        if i < before.appends.len() {
            assert(after.appends[i] == before.appends[i]);
            what_is_held_is_not_appended(label, values.drop_last(), held, i);
        } else {
            let key = contacts::key(after.appends[i])->0;
            if keys(held).contains(key) {
                let j = choose|j: int| 0 <= j < keys(held).len() && keys(held)[j] == key;
                assert(before.held[j] == key);
            }
        }
    }
}

proof fn held_is_kept(label: Seq<char>, values: Seq<Seq<char>>, held: Seq<Seq<char>>)
    ensures
        keys(held).is_prefix_of(planned(label, values, held).held),
    decreases values.len(),
{
    if values.len() > 0 {
        held_is_kept(label, values.drop_last(), held);
    }
}

/// What a single-valued field changes.
pub open spec fn text_change(field: TextField, value: Option<Seq<char>>) -> Seq<Seq<char>> {
    match value {
        Some(value) => seq![said(text_noun(field), value)],
        None => Seq::empty(),
    }
}

/// What was changed, once everything is written onto a card that held these
/// phones and emails.
pub open spec fn changes(fields: Fields, phones: Seq<Seq<char>>, emails: Seq<Seq<char>>) -> Seq<
    Seq<char>,
> {
    planned("phone"@, text::all_of(fields.phones@), phones).changed + planned(
        "email"@,
        text::all_of(fields.emails@),
        emails,
    ).changed + text_change(TextField::Title, text::maybe_str(fields.title)) + text_change(
        TextField::Org,
        text::maybe_str(fields.org),
    ) + text_change(TextField::Note, text::maybe_str(fields.note))
}

/// What was left as it was.
pub open spec fn kept(fields: Fields, phones: Seq<Seq<char>>, emails: Seq<Seq<char>>) -> Seq<
    Seq<char>,
> {
    planned("phone"@, text::all_of(fields.phones@), phones).unchanged + planned(
        "email"@,
        text::all_of(fields.emails@),
        emails,
    ).unchanged
}

/// Some value of a write is blank.
pub open spec fn has_blank(values: Seq<Seq<char>>) -> bool {
    exists|i: int| 0 <= i < values.len() && text::trim(#[trigger] values[i]).len() == 0
}

proof fn blank_is_noticed(label: Seq<char>, values: Seq<Seq<char>>, held: Seq<Seq<char>>)
    ensures
        planned(label, values, held).blank == has_blank(values),
    decreases values.len(),
{
    if values.len() > 0 {
        let rest = values.drop_last();
        blank_is_noticed(label, rest, held);
        if has_blank(rest) {
            let i = choose|i: int| 0 <= i < rest.len() && text::trim(#[trigger] rest[i]).len() == 0;
            assert(text::trim(values[i]).len() == 0);
        }
        if has_blank(values) && !has_blank(rest) {
            let i = choose|i: int|
                0 <= i < values.len() && text::trim(#[trigger] values[i]).len() == 0;
            if i < rest.len() {
                assert(text::trim(rest[i]).len() == 0);
            }
        }
        if text::trim(values.last()).len() == 0 {
            assert(text::trim(values[values.len() - 1]).len() == 0);
        }
    }
}

/// The store said who has a name.
pub open spec fn found<S: ContactStore>(store: &S, name: Seq<char>, ids: Seq<Seq<char>>) -> bool {
    exists|asked: &str, answer: Vec<String>| #[trigger]
        call_ensures(S::find, (store, asked), Ok::<Vec<String>, Error>(answer)) && asked@ == name
            && text::all_of(answer@) == ids
}

/// The store could not say who has a name.
pub open spec fn find_failed<S: ContactStore>(store: &S, name: Seq<char>, error: Error) -> bool {
    exists|asked: &str| #[trigger]
        call_ensures(S::find, (store, asked), Err::<Vec<String>, Error>(error)) && asked@ == name
}

/// The store created a person of this first and last name, under this id.
pub open spec fn created<S: ContactStore>(
    store: &S,
    name: (Seq<char>, Seq<char>),
    id: Seq<char>,
) -> bool {
    exists|first: &str, last: &str, answer: String| #[trigger]
        call_ensures(S::create, (store, first, last), Ok::<String, Error>(answer)) && first@
            == name.0 && last@ == name.1 && answer@ == id
}

/// The store could not create a person of this first and last name.
pub open spec fn create_failed<S: ContactStore>(
    store: &S,
    name: (Seq<char>, Seq<char>),
    error: Error,
) -> bool {
    exists|first: &str, last: &str| #[trigger]
        call_ensures(S::create, (store, first, last), Err::<String, Error>(error)) && first@
            == name.0 && last@ == name.1
}

/// The store said what a card holds in a field.
pub open spec fn holds<S: ContactStore>(
    store: &S,
    id: Seq<char>,
    field: ValueField,
    held: Seq<Seq<char>>,
) -> bool {
    exists|card: &str, answer: Vec<String>| #[trigger]
        call_ensures(S::values, (store, card, field), Ok::<Vec<String>, Error>(answer)) && card@
            == id && text::all_of(answer@) == held
}

/// The store could not say what a card holds in a field.
pub open spec fn values_failed<S: ContactStore>(
    store: &S,
    id: Seq<char>,
    field: ValueField,
    error: Error,
) -> bool {
    exists|card: &str| #[trigger]
        call_ensures(S::values, (store, card, field), Err::<Vec<String>, Error>(error)) && card@
            == id
}

/// The store appended a value to a card, or answered otherwise.
pub open spec fn appending<S: ContactStore>(
    store: &S,
    id: Seq<char>,
    field: ValueField,
    value: Seq<char>,
    answer: Result<(), Error>,
) -> bool {
    exists|card: &str, what: &str| #[trigger]
        call_ensures(S::append, (store, card, field, what), answer) && card@ == id && what@
            == value
}

/// The store replaced a field of a card, or answered otherwise.
pub open spec fn setting<S: ContactStore>(
    store: &S,
    id: Seq<char>,
    field: TextField,
    value: Seq<char>,
    answer: Result<(), Error>,
) -> bool {
    exists|card: &str, what: &str| #[trigger]
        call_ensures(S::set, (store, card, field, what), answer) && card@ == id && what@ == value
}

/// What a card is taken to hold in a field before `values` are written to it:
/// what the store says where it is asked, and nothing where the card is fresh or
/// there is nothing to write.
pub open spec fn taken_to_hold<S: ContactStore>(
    store: &S,
    id: Seq<char>,
    field: ValueField,
    values: Seq<Seq<char>>,
    read_existing: bool,
    held: Seq<Seq<char>>,
) -> bool {
    if values.len() > 0 && read_existing {
        holds(store, id, field, held)
    } else {
        held.len() == 0
    }
}

/// The first `n` of these values were appended to a card.
pub open spec fn appended<S: ContactStore>(
    store: &S,
    id: Seq<char>,
    field: ValueField,
    values: Seq<Seq<char>>,
    n: int,
) -> bool {
    forall|i: int| 0 <= i < n ==> appending(store, id, field, #[trigger] values[i], Ok(()))
}

/// The values of one field are on a card that held `held`: none of them is
/// blank, and every one that is new was appended.
pub open spec fn values_written<S: ContactStore>(
    store: &S,
    id: Seq<char>,
    field: ValueField,
    values: Seq<Seq<char>>,
    read_existing: bool,
    held: Seq<Seq<char>>,
) -> bool {
    let plan = planned(value_noun(field), values, held);
    &&& taken_to_hold(store, id, field, values, read_existing, held)
    &&& !plan.blank
    &&& appended(store, id, field, plan.appends, plan.appends.len() as int)
}

/// What is said of a blank value.
pub open spec fn blank_value(field: ValueField) -> ErrorView {
    ErrorView::Other("an empty --"@ + value_noun(field))
}

/// Why writing stopped on a card that held `held`: the store refused a value
/// that is new, after those before it were appended, or one value is blank and
/// all the new ones before it were.
pub open spec fn stopped<S: ContactStore>(
    store: &S,
    id: Seq<char>,
    field: ValueField,
    plan: Planned,
    error: Error,
) -> bool {
    ||| exists|n: int|
        0 <= n < plan.appends.len() && appending(
            store,
            id,
            field,
            #[trigger] plan.appends[n],
            Err(error),
        ) && appended(store, id, field, plan.appends, n)
    ||| plan.blank && error@ == blank_value(field) && appended(
        store,
        id,
        field,
        plan.appends,
        plan.appends.len() as int,
    )
}

/// Why the values of one field are not on a card: the store could not say what
/// the card holds, or writing stopped.
pub open spec fn values_refused<S: ContactStore>(
    store: &S,
    id: Seq<char>,
    field: ValueField,
    values: Seq<Seq<char>>,
    read_existing: bool,
    error: Error,
) -> bool {
    &&& values.len() > 0
    &&& {
        ||| read_existing && values_failed(store, id, field, error)
        ||| exists|held: Seq<Seq<char>>|
            taken_to_hold(store, id, field, values, read_existing, held) && stopped(
                store,
                id,
                field,
                #[trigger] planned(value_noun(field), values, held),
                error,
            )
    }
}

/// The error for a blank value.
fn empty_value(field: ValueField) -> (out: Error)
    ensures
        out@ == blank_value(field),
{
    let mut message: String = "an empty --".to_owned();
    message.append(field.label());
    Error::Other(message)
}

/// Append the values that are new to a card, in order.
fn append_each<S: ContactStore>(store: &S, id: &str, field: ValueField, values: &Vec<String>) -> (out:
    Result<(), Error>)
    ensures
        out is Ok ==> appended(
            store,
            id@,
            field,
            text::all_of(values@),
            values@.len() as int,
        ),
        out matches Err(error) ==> exists|n: int|
            0 <= n < values@.len() && appending(
                store,
                id@,
                field,
                #[trigger] text::all_of(values@)[n],
                Err(error),
            ) && appended(store, id@, field, text::all_of(values@), n),
{
    let ghost all = text::all_of(values@);
    for i in 0..values.len()
        invariant
            all == text::all_of(values@),
            appended(store, id@, field, all, i as int),
    {
        let value = values[i].as_str();
        let answer = store.append(id, field, value);
        proof {
            assert(all[i as int] == value@);
            assert(call_ensures(S::append, (store, id, field, value), answer));
            assert(appending(store, id@, field, all[i as int], answer));
        }
        match answer {
            Ok(done) => {
                assert(done == ());
                assert(appending(store, id@, field, all[i as int], Ok::<(), Error>(())));
            },
            Err(error) => return Err(error),
        }
    }
    Ok(())
}

/// Write the values of one field onto a card, and say what changed.
fn apply_values<S: ContactStore>(
    store: &S,
    id: &str,
    field: ValueField,
    values: &[String],
    read_existing: bool,
) -> (out: Result<(Vec<String>, Vec<String>), Error>)
    ensures
        out matches Ok(done) ==> exists|held: Seq<Seq<char>>|
            {
                let plan = #[trigger] planned(value_noun(field), text::all_of(values@), held);
                &&& values_written(store, id@, field, text::all_of(values@), read_existing, held)
                &&& text::all_of(done.0@) == plan.changed
                &&& text::all_of(done.1@) == plan.unchanged
            },
        out matches Err(error) ==> values_refused(
            store,
            id@,
            field,
            text::all_of(values@),
            read_existing,
            error,
        ),
{
    let ghost label = value_noun(field);
    let ghost wanted = text::all_of(values@);
    if values.len() == 0 {
        let changed: Vec<String> = Vec::new();
        let unchanged: Vec<String> = Vec::new();
        proof {
            let plan = planned(label, wanted, Seq::empty());
            assert(text::all_of(changed@) =~= plan.changed);
            assert(text::all_of(unchanged@) =~= plan.unchanged);
            assert(values_written(store, id@, field, wanted, read_existing, Seq::empty()));
        }
        return Ok((changed, unchanged));
    }
    let held: Vec<String> = if read_existing {
        let answer = store.values(id, field);
        assert(call_ensures(S::values, (store, id, field), answer));
        match answer {
            Ok(held) => held,
            Err(error) => {
                assert(values_failed(store, id@, field, error));
                return Err(error);
            },
        }
    } else {
        Vec::new()
    };
    let ghost stored = text::all_of(held@);
    proof {
        if read_existing {
            assert(holds(store, id@, field, stored));
        }
        assert(taken_to_hold(store, id@, field, wanted, read_existing, stored));
    }
    let plan = plan_values(field, values, &held);
    assert(plan@ == planned(label, wanted, stored));
    match append_each(store, id, field, &plan.appends) {
        Ok(_) => {},
        Err(error) => {
            proof {
                let n = choose|n: int|
                    0 <= n < plan.appends@.len() && appending(
                        store,
                        id@,
                        field,
                        #[trigger] text::all_of(plan.appends@)[n],
                        Err(error),
                    ) && appended(store, id@, field, text::all_of(plan.appends@), n);
                assert(plan@.appends[n] == text::all_of(plan.appends@)[n]);
                assert(stopped(store, id@, field, plan@, error));
            }
            return Err(error);
        },
    }
    if plan.blank {
        let error = empty_value(field);
        assert(stopped(store, id@, field, plan@, error));
        return Err(error);
    }
    assert(values_written(store, id@, field, wanted, read_existing, stored));
    Ok((plan.changed, plan.unchanged))
}

/// A single-valued field that was asked for was replaced.
pub open spec fn text_written<S: ContactStore>(
    store: &S,
    id: Seq<char>,
    field: TextField,
    value: Option<Seq<char>>,
) -> bool {
    value is Some ==> setting(store, id, field, value->0, Ok(()))
}

/// A single-valued field that was asked for was refused.
pub open spec fn text_refused<S: ContactStore>(
    store: &S,
    id: Seq<char>,
    field: TextField,
    value: Option<Seq<char>>,
    error: Error,
) -> bool {
    value is Some && setting(store, id, field, value->0, Err(error))
}

/// Replace one single-valued field, if it is asked for.
fn apply_text<S: ContactStore>(
    store: &S,
    id: &str,
    field: TextField,
    value: Option<&str>,
    changed: &mut Vec<String>,
) -> (out: Result<(), Error>)
    ensures
        out is Ok ==> text::all_of(final(changed)@) == text::all_of(old(changed)@) + text_change(
            field,
            text::maybe_str(value),
        ),
        out is Ok ==> text_written(store, id@, field, text::maybe_str(value)),
        out matches Err(error) ==> text_refused(store, id@, field, text::maybe_str(value), error),
{
    let ghost was = text::all_of(changed@);
    if let Some(value) = value {
        let answer = store.set(id, field, value);
        assert(call_ensures(S::set, (store, id, field, value), answer));
        assert(setting(store, id@, field, value@, answer));
        match answer {
            Ok(done) => {
                assert(done == ());
                assert(setting(store, id@, field, value@, Ok::<(), Error>(())));
            },
            Err(error) => return Err(error),
        }
        push_text(changed, name_value(field.label(), value));
        assert(text::all_of(changed@) =~= was + text_change(field, Some(value@)));
    } else {
        assert(was + Seq::<Seq<char>>::empty() =~= was);
    }
    Ok(())
}

/// Everything is on a card that held these phones and emails.
pub open spec fn written<S: ContactStore>(
    store: &S,
    id: Seq<char>,
    fields: Fields,
    read_existing: bool,
    phones: Seq<Seq<char>>,
    emails: Seq<Seq<char>>,
) -> bool {
    &&& values_written(
        store,
        id,
        ValueField::Phone,
        text::all_of(fields.phones@),
        read_existing,
        phones,
    )
    &&& values_written(
        store,
        id,
        ValueField::Email,
        text::all_of(fields.emails@),
        read_existing,
        emails,
    )
    &&& text_written(store, id, TextField::Title, text::maybe_str(fields.title))
    &&& text_written(store, id, TextField::Org, text::maybe_str(fields.org))
    &&& text_written(store, id, TextField::Note, text::maybe_str(fields.note))
}

/// Everything is on the card, and this is what was changed and what was left.
pub open spec fn wrote<S: ContactStore>(
    store: &S,
    id: Seq<char>,
    fields: Fields,
    read_existing: bool,
    changed: Seq<Seq<char>>,
    unchanged: Seq<Seq<char>>,
) -> bool {
    exists|phones: Seq<Seq<char>>, emails: Seq<Seq<char>>|
        {
            &&& written(store, id, fields, read_existing, phones, emails)
            &&& changed == #[trigger] changes(fields, phones, emails)
            &&& unchanged == kept(fields, phones, emails)
        }
}

/// The values of one field are on a card, whatever it held.
pub open spec fn values_done<S: ContactStore>(
    store: &S,
    id: Seq<char>,
    field: ValueField,
    values: Seq<Seq<char>>,
    read_existing: bool,
) -> bool {
    exists|held: Seq<Seq<char>>| #[trigger]
        values_written(store, id, field, values, read_existing, held)
}

/// Why not everything is on a card: one field was refused, after the fields
/// before it were written.
pub open spec fn refused<S: ContactStore>(
    store: &S,
    id: Seq<char>,
    fields: Fields,
    read_existing: bool,
    error: Error,
) -> bool {
    let phones = text::all_of(fields.phones@);
    let emails = text::all_of(fields.emails@);
    let title = text::maybe_str(fields.title);
    let org = text::maybe_str(fields.org);
    let note = text::maybe_str(fields.note);
    let phones_done = values_done(store, id, ValueField::Phone, phones, read_existing);
    let emails_done = phones_done && values_done(
        store,
        id,
        ValueField::Email,
        emails,
        read_existing,
    );
    let title_done = emails_done && text_written(store, id, TextField::Title, title);
    let org_done = title_done && text_written(store, id, TextField::Org, org);
    ||| values_refused(store, id, ValueField::Phone, phones, read_existing, error)
    ||| phones_done && values_refused(
        store,
        id,
        ValueField::Email,
        emails,
        read_existing,
        error,
    )
    ||| emails_done && text_refused(store, id, TextField::Title, title, error)
    ||| title_done && text_refused(store, id, TextField::Org, org, error)
    ||| org_done && text_refused(store, id, TextField::Note, note, error)
}

/// Append texts to others.
fn push_all(all: &mut Vec<String>, more: Vec<String>)
    ensures
        text::all_of(final(all)@) == text::all_of(old(all)@) + text::all_of(more@),
{
    let ghost was = text::all_of(all@);
    let ghost added = text::all_of(more@);
    let mut more = more;
    all.append(&mut more);
    assert(text::all_of(all@) =~= was + added);
}

/// Write fields onto a card, appending phones and emails it does not hold already
/// and replacing the rest. A card that was just created is never read back.
///
/// It succeeds unless the store refuses something it is asked or a value is
/// blank, and says which.
pub fn apply<S: ContactStore>(store: &S, id: &str, fields: &Fields<'_>, read_existing: bool) -> (out:
    Result<(Vec<String>, Vec<String>), Error>)
    ensures
        out matches Ok(done) ==> wrote(
            store,
            id@,
            *fields,
            read_existing,
            text::all_of(done.0@),
            text::all_of(done.1@),
        ),
        out matches Err(error) ==> refused(store, id@, *fields, read_existing, error),
        fields.carries_nothing() ==> out is Ok,
        has_blank(text::all_of(fields.phones@)) ==> out is Err,
        has_blank(text::all_of(fields.emails@)) ==> out is Err,
{
    let ghost wanted_phones = text::all_of(fields.phones@);
    let ghost wanted_emails = text::all_of(fields.emails@);
    let phone = ValueField::Phone;
    let email = ValueField::Email;
    let (changed, unchanged) = match apply_values(store, id, phone, fields.phones, read_existing) {
        Ok(done) => done,
        Err(error) => return Err(error),
    };
    let ghost first = text::all_of(changed@);
    let ghost first_kept = text::all_of(unchanged@);
    let ghost phones = choose|held: Seq<Seq<char>>|
        {
            let plan = #[trigger] planned("phone"@, wanted_phones, held);
            &&& values_written(store, id@, phone, wanted_phones, read_existing, held)
            &&& first == plan.changed
            &&& first_kept == plan.unchanged
        };
    proof {
        blank_is_noticed("phone"@, wanted_phones, phones);
    }
    assert(values_done(store, id@, phone, wanted_phones, read_existing));
    let mut changed = changed;
    let mut unchanged = unchanged;
    let (more, same) = match apply_values(store, id, email, fields.emails, read_existing) {
        Ok(done) => done,
        Err(error) => return Err(error),
    };
    let ghost second = text::all_of(more@);
    let ghost second_kept = text::all_of(same@);
    let ghost emails = choose|held: Seq<Seq<char>>|
        {
            let plan = #[trigger] planned("email"@, wanted_emails, held);
            &&& values_written(store, id@, email, wanted_emails, read_existing, held)
            &&& second == plan.changed
            &&& second_kept == plan.unchanged
        };
    proof {
        blank_is_noticed("email"@, wanted_emails, emails);
    }
    assert(values_done(store, id@, email, wanted_emails, read_existing));
    push_all(&mut changed, more);
    push_all(&mut unchanged, same);
    match apply_text(store, id, TextField::Title, fields.title, &mut changed) {
        Ok(_) => {},
        Err(error) => return Err(error),
    }
    match apply_text(store, id, TextField::Org, fields.org, &mut changed) {
        Ok(_) => {},
        Err(error) => return Err(error),
    }
    match apply_text(store, id, TextField::Note, fields.note, &mut changed) {
        Ok(_) => {},
        Err(error) => return Err(error),
    }
    proof {
        assert(written(store, id@, *fields, read_existing, phones, emails));
        assert(text::all_of(changed@) == changes(*fields, phones, emails));
        assert(text::all_of(unchanged@) == kept(*fields, phones, emails));
    }
    Ok((changed, unchanged))
}

/// Where the first space of a text is, or its end.
pub open spec fn first_space(s: Seq<char>) -> nat
    decreases s.len(),
{
    if s.len() == 0 || s[0] == ' ' {
        0
    } else {
        1 + first_space(s.drop_first())
    }
}

/// The first and last name in a name: its first word, and the rest.
pub open spec fn parted(name: Seq<char>) -> (Seq<char>, Seq<char>) {
    let at = first_space(name) as int;
    if at < name.len() {
        (name.take(at), text::trim(name.skip(at + 1)))
    } else {
        (name, Seq::<char>::empty())
    }
}

/// The first and last name in a name.
pub fn split_name(name: &str) -> (out: (String, String))
    ensures
        out.0@ == parted(name@).0,
        out.1@ == parted(name@).1,
{
    let chars = chars_of(name);
    let mut at: usize = 0;
    assert(chars@.skip(0) =~= chars@);
    while at < chars.len() && chars[at] != ' '
        invariant
            chars@ == name@,
            at <= chars@.len(),
            first_space(name@) == at + first_space(chars@.skip(at as int)),
        decreases chars@.len() - at,
    {
        assert(chars@.skip(at as int).drop_first() =~= chars@.skip(at + 1));
        at += 1;
    }
    if at < chars.len() {
        let first = slice_text(&chars, 0, at);
        let rest = slice_text(&chars, at + 1, chars.len());
        assert(first@ =~= name@.take(at as int));
        assert(rest@ =~= name@.skip(at + 1));
        (first, trim_text(rest.as_str()))
    } else {
        (name.to_owned(), String::new())
    }
}

/// What to say of a name that is taken. The likely intent behind adding it is to
/// update, so it is refused rather than resolved; two people can share a name.
pub open spec fn name_taken(name: Seq<char>) -> ErrorView {
    ErrorView::Other(
        name
            + " is already in Contacts; update them with `msg contacts update`, or pass --duplicate to add another person with this name"@,
    )
}

/// What to say of a name that is taken.
pub fn taken(name: &str) -> (out: Error)
    ensures
        out@ == name_taken(name@),
{
    let mut message: String = name.to_owned();
    message.append(
        " is already in Contacts; update them with `msg contacts update`, or pass --duplicate to add another person with this name",
    );
    Error::Other(message)
}

/// Whether a name that the store found these cards under may be added.
pub fn may_add(held: Vec<String>, name: &str) -> (out: Result<(), Error>)
    ensures
        out is Ok <==> held@.len() == 0,
        out matches Err(error) ==> error@ == name_taken(name@),
{
    if held.len() > 0 {
        Err(taken(name))
    } else {
        Ok(())
    }
}

/// The fields a request to add carries.
pub open spec fn added_fields<'a>(ask: &'a PersonAddRequest, fields: Fields<'a>) -> bool {
    &&& fields.phones@ == ask.phones@
    &&& fields.emails@ == ask.emails@
    &&& text::maybe_str(fields.title) == text::maybe(ask.title)
    &&& text::maybe_str(fields.org) == text::maybe(ask.org)
    &&& text::maybe_str(fields.note) == text::maybe(ask.note)
}

/// The fields a request to update carries.
pub open spec fn updated_fields<'a>(ask: &'a PersonUpdateRequest, fields: Fields<'a>) -> bool {
    &&& fields.phones@ == ask.phones@
    &&& fields.emails@ == ask.emails@
    &&& text::maybe_str(fields.title) == text::maybe(ask.title)
    &&& text::maybe_str(fields.org) == text::maybe(ask.org)
    &&& text::maybe_str(fields.note) == text::maybe(ask.note)
}

/// A name may be added: the store has nobody of it, or another of that name was
/// asked for.
pub open spec fn addable<S: ContactStore>(store: &S, ask: &PersonAddRequest) -> bool {
    ask.duplicate == Some(true) || found(store, text::trim(ask.name@), Seq::empty())
}

/// Why a person was not added.
pub open spec fn add_refused<S: ContactStore>(
    store: &S,
    ask: &PersonAddRequest,
    error: Error,
) -> bool {
    let name = text::trim(ask.name@);
    if name.len() == 0 {
        error@ == ErrorView::Other("no name to add"@)
    } else {
        ||| ask.duplicate != Some(true) && find_failed(store, name, error)
        ||| {
            &&& ask.duplicate != Some(true)
            &&& exists|ids: Seq<Seq<char>>| #[trigger] found(store, name, ids) && ids.len() > 0
            &&& error@ == name_taken(name)
        }
        ||| addable(store, ask) && create_failed(store, parted(name), error)
        ||| addable(store, ask) && exists|id: Seq<char>, fields: Fields|
            created(store, parted(name), id) && added_fields(ask, fields) && #[trigger] refused(
                store,
                id,
                fields,
                false,
                error,
            )
    }
}

/// Create a card, and write the fields onto it.
///
/// What the card is called and what is written onto it are settled by the
/// request alone, since a fresh card holds nothing; whether it can be created is
/// the store's to say. It succeeds unless the store refuses something it is
/// asked, has the name already, or a value is blank.
pub fn add<S: ContactStore>(store: &S, ask: &PersonAddRequest) -> (out: Result<
    PersonWriteReply,
    Error,
>)
    ensures
        out matches Ok(reply) ==> {
            &&& reply.created
            &&& reply.name@ == text::trim(ask.name@)
            &&& text::trim(ask.name@).len() > 0
            &&& addable(store, ask)
            &&& created(store, parted(text::trim(ask.name@)), reply.id@)
            &&& exists|fields: Fields|
                #[trigger] added_fields(ask, fields) && wrote(
                    store,
                    reply.id@,
                    fields,
                    false,
                    text::all_of(reply.changed@),
                    text::all_of(reply.unchanged@),
                )
        },
        out matches Err(error) ==> add_refused(store, ask, error),
        has_blank(text::all_of(ask.phones@)) ==> out is Err,
        has_blank(text::all_of(ask.emails@)) ==> out is Err,
{
    let name = trim_text(ask.name.as_str());
    if name.as_str().is_empty() {
        return Err(Error::other("no name to add"));
    }
    let fields = Fields {
        phones: ask.phones.as_slice(),
        emails: ask.emails.as_slice(),
        title: borrowed(&ask.title),
        org: borrowed(&ask.org),
        note: borrowed(&ask.note),
    };
    assert(added_fields(ask, fields));
    let duplicate = match ask.duplicate {
        Some(duplicate) => duplicate,
        None => false,
    };
    if !duplicate {
        let asked = name.as_str();
        let answer = store.find(asked);
        assert(call_ensures(S::find, (store, asked), answer));
        let held = match answer {
            Ok(held) => held,
            Err(error) => {
                assert(find_failed(store, name@, error));
                return Err(error);
            },
        };
        let ghost ids = text::all_of(held@);
        assert(found(store, name@, ids));
        match may_add(held, asked) {
            Ok(_) => {
                assert(ids =~= Seq::<Seq<char>>::empty());
            },
            Err(error) => return Err(error),
        }
    }
    assert(addable(store, ask));
    let (first, last) = split_name(name.as_str());
    let (first_word, rest) = (first.as_str(), last.as_str());
    let answer = store.create(first_word, rest);
    assert(call_ensures(S::create, (store, first_word, rest), answer));
    let id = match answer {
        Ok(id) => id,
        Err(error) => {
            assert(create_failed(store, parted(name@), error));
            return Err(error);
        },
    };
    assert(created(store, parted(name@), id@));
    match apply(store, id.as_str(), &fields, false) {
        Ok((changed, unchanged)) => Ok(
            PersonWriteReply { id, name, created: true, changed, unchanged },
        ),
        Err(error) => {
            assert(refused(store, id@, fields, false, error));
            Err(error)
        },
    }
}

/// What to say of a write that carries nothing, before anything runs.
pub const NOTHING_TO_WRITE: &'static str =
    "nothing to write: pass --phone, --email, --title, --org, or --note";

/// What is said of somebody Contacts does not show.
pub open spec fn nobody_named(filed: Seq<char>) -> ErrorView {
    ErrorView::Other(
        "Contacts.app has nobody named "@ + filed
            + ", though the index resolves them — their record may belong to a source Contacts does not show"@,
    )
}

/// The card a name was found under: the first, if there is any.
pub fn card_of(ids: Vec<String>, filed: &str) -> (out: Result<String, Error>)
    ensures
        ids@.len() > 0 ==> out == Ok::<String, Error>(ids@[0]),
        ids@.len() == 0 ==> (out matches Err(error) && error@ == nobody_named(filed@)),
{
    let mut ids = ids;
    if ids.len() == 0 {
        let mut message: String = "Contacts.app has nobody named ".to_owned();
        message.append(filed);
        message.append(
            ", though the index resolves them — their record may belong to a source Contacts does not show",
        );
        return Err(Error::Other(message));
    }
    Ok(ids.remove(0))
}

/// The name a person's card is filed under: the nickname is what we call them,
/// not what Contacts does.
pub open spec fn filed_name(person: PersonView) -> Seq<char> {
    match person.filed_as {
        Some(filed) => filed,
        None => person.name,
    }
}

/// Why nothing, or not everything, was written onto somebody's card.
pub open spec fn update_refused<S: ContactStore>(
    store: &S,
    ask: &PersonUpdateRequest,
    filed: Seq<char>,
    error: Error,
) -> bool {
    ||| find_failed(store, filed, error)
    ||| found(store, filed, Seq::empty()) && error@ == nobody_named(filed)
    ||| exists|ids: Seq<Seq<char>>, fields: Fields|
        found(store, filed, ids) && ids.len() > 0 && updated_fields(ask, fields)
            && #[trigger] refused(store, ids[0], fields, true, error)
}

/// Write onto a card that is there already. The term is resolved the way a person
/// is, refusals included, and the card is addressed by the name it is filed
/// under: the nickname is what we call them, not what Contacts does.
pub fn update<S: ContactStore>(index: &ContactIndex, store: &S, ask: &PersonUpdateRequest) -> (out:
    Result<PersonWriteReply, Error>)
    ensures
        carries_nothing(ask) ==> (out matches Err(error) && error@ == ErrorView::Other(
            NOTHING_TO_WRITE@,
        )),
        !carries_nothing(ask) ==> match contacts::resolved(index@, ask.term@) {
            Err(refused) => out matches Err(error) && error@ == refused,
            Ok(person) => {
                &&& has_blank(text::all_of(ask.phones@)) ==> out is Err
                &&& has_blank(text::all_of(ask.emails@)) ==> out is Err
                &&& out matches Err(error) ==> update_refused(
                    store,
                    ask,
                    filed_name(person),
                    error,
                )
                &&& out matches Ok(reply) ==> {
                    &&& !reply.created
                    &&& reply.name@ == person.name
                    &&& exists|ids: Seq<Seq<char>>|
                        #[trigger] found(store, filed_name(person), ids) && ids.len() > 0
                            && reply.id@ == ids[0]
                    &&& exists|fields: Fields|
                        #[trigger] updated_fields(ask, fields) && wrote(
                            store,
                            reply.id@,
                            fields,
                            true,
                            text::all_of(reply.changed@),
                            text::all_of(reply.unchanged@),
                        )
                }
            },
        },
{
    let fields = Fields {
        phones: ask.phones.as_slice(),
        emails: ask.emails.as_slice(),
        title: borrowed(&ask.title),
        org: borrowed(&ask.org),
        note: borrowed(&ask.note),
    };
    assert(updated_fields(ask, fields));
    if fields.is_empty() {
        return Err(Error::other(NOTHING_TO_WRITE));
    }
    let person = match index.person(ask.term.as_str()) {
        Ok(person) => person,
        Err(error) => return Err(error),
    };
    let ghost whose = contacts::resolved(index@, ask.term@)->Ok_0;
    let filed: &str = match &person.filed_as {
        Some(filed) => filed.as_str(),
        None => person.name.as_str(),
    };
    assert(filed@ == filed_name(whose));
    let answer = store.find(filed);
    assert(call_ensures(S::find, (store, filed), answer));
    let ids = match answer {
        Ok(ids) => ids,
        Err(error) => {
            assert(find_failed(store, filed_name(whose), error));
            return Err(error);
        },
    };
    let ghost cards = text::all_of(ids@);
    assert(found(store, filed_name(whose), cards));
    let id = match card_of(ids, filed) {
        Ok(id) => id,
        Err(error) => {
            assert(cards =~= Seq::<Seq<char>>::empty());
            return Err(error);
        },
    };
    assert(id@ == cards[0]);
    match apply(store, id.as_str(), &fields, true) {
        Ok((changed, unchanged)) => Ok(
            PersonWriteReply { id, name: person.name, created: false, changed, unchanged },
        ),
        Err(error) => {
            assert(refused(store, cards[0], fields, true, error));
            Err(error)
        },
    }
}

/// A request to update carries nothing to write.
pub open spec fn carries_nothing(ask: &PersonUpdateRequest) -> bool {
    ask.phones@.len() == 0 && ask.emails@.len() == 0 && ask.title is None && ask.org is None
        && ask.note is None
}

/// What a write onto a fresh card changes is settled by the request alone.
pub proof fn a_fresh_card_is_never_read<S: ContactStore>(
    store: &S,
    id: Seq<char>,
    fields: Fields,
    changed: Seq<Seq<char>>,
    unchanged: Seq<Seq<char>>,
)
    requires
        wrote(store, id, fields, false, changed, unchanged),
    ensures
        changed == changes(fields, Seq::empty(), Seq::empty()),
        unchanged == kept(fields, Seq::empty(), Seq::empty()),
{
    let (phones, emails) = choose|phones: Seq<Seq<char>>, emails: Seq<Seq<char>>|
        {
            &&& written(store, id, fields, false, phones, emails)
            &&& changed == #[trigger] changes(fields, phones, emails)
            &&& unchanged == kept(fields, phones, emails)
        };
    assert(phones =~= Seq::<Seq<char>>::empty());
    assert(emails =~= Seq::<Seq<char>>::empty());
}

/// Each script works on the field it was made for, of the card and with the value it is
/// handed.
pub proof fn a_script_works_on_its_field(field: ValueField, replaced: TextField)
    ensures
        value_nouns(field) == value_noun(field) + "s"@,
        text::contains(
            values_script(field),
            "value of every "@ + value_noun(field) + " of person id personId"@,
        ),
        text::contains(
            append_script(field),
            "make new "@ + value_noun(field) + " at end of "@ + value_noun(field)
                + "s of person id personId with properties {value:newValue}"@,
        ),
        text::contains(
            set_script(replaced),
            "set "@ + text_property(replaced) + " of person id personId to newValue"@,
        ),
{
    let noun = value_noun(field);
    reveal_strlit("phone");
    reveal_strlit("phones");
    reveal_strlit("email");
    reveal_strlit("emails");
    reveal_strlit("s");
    assert(value_nouns(field) =~= noun + "s"@);
    it_reads_the_field(noun);
    it_appends_to_the_field(noun);
    it_replaces_the_field(text_property(replaced));
}

proof fn it_reads_the_field(noun: Seq<char>)
    ensures
        text::contains(
            "
on run {personId}
  set text item delimiters to linefeed
  tell application \"Contacts\"
    return (value of every "@ + noun + " of person id personId) as text
  end tell
end run
"@,
            "value of every "@ + noun + " of person id personId"@,
        ),
{
    reveal_strlit("
on run {personId}
  set text item delimiters to linefeed
  tell application \"Contacts\"
    return (value of every ");
    reveal_strlit(" of person id personId) as text
  end tell
end run
");
    reveal_strlit("value of every ");
    reveal_strlit(" of person id personId");
    let front = "
on run {personId}
  set text item delimiters to linefeed
  tell application \"Contacts\"
    return (value of every "@;
    let behind = " of person id personId) as text
  end tell
end run
"@;
    let opens = "value of every "@;
    let closes = " of person id personId"@;
    let head = front.take(front.len() - opens.len());
    let tail = behind.skip(closes.len() as int);
    assert(front.skip(front.len() - opens.len()) =~= opens);
    assert(front =~= head + opens);
    assert(behind.take(closes.len() as int) =~= closes);
    assert(behind =~= closes + tail);
    let inner = opens + noun + closes;
    assert(front + noun + behind =~= head + inner + tail);
    text::a_piece_is_held(head, inner, tail);
}

proof fn it_appends_to_the_field(noun: Seq<char>)
    ensures
        text::contains(
            "
on run {personId, newValue}
  tell application \"Contacts\"
    make new "@ + noun + " at end of "@ + (noun + "s"@)
                + " of person id personId with properties {value:newValue}
    save
  end tell
end run
"@,
            "make new "@ + noun + " at end of "@ + noun
                + "s of person id personId with properties {value:newValue}"@,
        ),
{
    reveal_strlit("
on run {personId, newValue}
  tell application \"Contacts\"
    make new ");
    reveal_strlit(" of person id personId with properties {value:newValue}
    save
  end tell
end run
");
    reveal_strlit("make new ");
    reveal_strlit("s of person id personId with properties {value:newValue}");
    reveal_strlit("s");
    let front = "
on run {personId, newValue}
  tell application \"Contacts\"
    make new "@;
    let behind = " of person id personId with properties {value:newValue}
    save
  end tell
end run
"@;
    let opens = "make new "@;
    let closes = "s of person id personId with properties {value:newValue}"@;
    let head = front.take(front.len() - opens.len());
    let tail = behind.skip(closes.len() - 1);
    assert(front.skip(front.len() - opens.len()) =~= opens);
    assert(front =~= head + opens);
    assert("s"@ + behind =~= closes + tail);
    let middle = noun + " at end of "@ + noun;
    let inner = opens + middle + closes;
    assert(front + noun + " at end of "@ + (noun + "s"@) + behind =~= front + middle + ("s"@
        + behind));
    assert(front + middle + (closes + tail) =~= head + inner + tail);
    text::a_piece_is_held(head, inner, tail);
    assert(inner =~= opens + noun + " at end of "@ + noun + closes);
}

proof fn it_replaces_the_field(property: Seq<char>)
    ensures
        text::contains(
            "
on run {personId, newValue}
  tell application \"Contacts\"
    set "@ + property + " of person id personId to newValue
    save
  end tell
end run
"@,
            "set "@ + property + " of person id personId to newValue"@,
        ),
{
    reveal_strlit("
on run {personId, newValue}
  tell application \"Contacts\"
    set ");
    reveal_strlit(" of person id personId to newValue
    save
  end tell
end run
");
    reveal_strlit("set ");
    reveal_strlit(" of person id personId to newValue");
    let front = "
on run {personId, newValue}
  tell application \"Contacts\"
    set "@;
    let behind = " of person id personId to newValue
    save
  end tell
end run
"@;
    let opens = "set "@;
    let closes = " of person id personId to newValue"@;
    let head = front.take(front.len() - opens.len());
    let tail = behind.skip(closes.len() as int);
    assert(front.skip(front.len() - opens.len()) =~= opens);
    assert(front =~= head + opens);
    assert(behind.take(closes.len() as int) =~= closes);
    assert(behind =~= closes + tail);
    let inner = opens + property + closes;
    assert(front + property + behind =~= head + inner + tail);
    text::a_piece_is_held(head, inner, tail);
}

/// A refused Apple Event is a denial, and any other failure is told in its own words.
pub proof fn only_a_refused_event_is_a_denial(stderr: Seq<char>)
    ensures
        failure(stderr) is AccessDenied <==> text::contains(stderr, "-1743"@) || text::contains(
            stderr,
            "Not authorized"@,
        ),
        failure(stderr) matches ErrorView::Other(words) ==> words == stderr,
        failure(stderr) is AccessDenied || failure(stderr) is Other,
{
}

/// What is printed is kept but for the line endings behind it.
pub proof fn only_line_endings_are_cut(s: Seq<char>)
    ensures
        unended(s).is_prefix_of(s),
        unended(s).len() > 0 ==> unended(s).last() != '\n' && unended(s).last() != '\r',
        forall|i: int|
            unended(s).len() <= i < s.len() ==> #[trigger] s[i] == '\n' || s[i] == '\r',
    decreases s.len(),
{
    if s.len() > 0 && (s.last() == '\n' || s.last() == '\r') {
        only_line_endings_are_cut(s.drop_last());
        assert forall|i: int| unended(s).len() <= i < s.len() implies #[trigger] s[i] == '\n'
            || s[i] == '\r' by {
            if i < s.len() - 1 {
                assert(s.drop_last()[i] == s[i]);
            }
        }
    }
}

/// Every line with something on it is a value, and no other.
pub proof fn a_line_with_something_on_it_is_a_value(all: Seq<Seq<char>>, value: Seq<char>)
    ensures
        filled(all).contains(value) <==> all.contains(value) && value.len() > 0,
    decreases all.len(),
{
    if all.len() > 0 {
        let rest = all.drop_last();
        let before = filled(rest);
        let out = filled(all);
        a_line_with_something_on_it_is_a_value(rest, value);
        if out.contains(value) {
            let k = choose|k: int| 0 <= k < out.len() && out[k] == value;
            if k < before.len() {
                assert(before[k] == value);
                let i = choose|i: int| 0 <= i < rest.len() && rest[i] == value;
                assert(all[i] == value);
            } else {
                assert(all[all.len() - 1] == value);
            }
        }
        if all.contains(value) && value.len() > 0 {
            let i = choose|i: int| 0 <= i < all.len() && all[i] == value;
            if i < rest.len() {
                assert(rest[i] == value);
                let k = choose|k: int| 0 <= k < before.len() && before[k] == value;
                assert(out[k] == value);
            } else {
                assert(out[out.len() - 1] == value);
            }
        }
    }
}

/// A name is parted at its first space: the word before it is the first name, and what
/// stands behind it the last. A single word is a first name.
pub proof fn a_name_is_parted_at_its_first_space(first: Seq<char>, last: Seq<char>)
    requires
        !first.contains(' '),
    ensures
        parted(first.push(' ') + last) == (first, text::trim(last)),
        parted(first) == (first, Seq::<char>::empty()),
{
    let name = first.push(' ') + last;
    the_first_space_is_found(first, seq![' '] + last);
    the_first_space_is_found(first, Seq::empty());
    assert(name =~= first + (seq![' '] + last));
    assert(first + Seq::<char>::empty() =~= first);
    assert(name.take(first.len() as int) =~= first);
    assert(name.skip(first.len() as int + 1) =~= last);
}

proof fn the_first_space_is_found(first: Seq<char>, rest: Seq<char>)
    requires
        !first.contains(' '),
        rest.len() == 0 || rest[0] == ' ',
    ensures
        first_space(first + rest) == first.len(),
    decreases first.len(),
{
    if first.len() == 0 {
        assert(first + rest =~= rest);
    } else {
        assert(first[0] != ' ') by {
            assert(first.contains(first[0]));
        }
        assert((first + rest).drop_first() =~= first.drop_first() + rest);
        assert(!first.drop_first().contains(' ')) by {
            if first.drop_first().contains(' ') {
                let i = choose|i: int| 0 <= i < first.len() - 1 && first.drop_first()[i] == ' ';
                assert(first[i + 1] == ' ');
            }
        }
        the_first_space_is_found(first.drop_first(), rest);
    }
}

/// What is said to have changed is exactly what is appended, each under the name of its
/// field.
pub proof fn what_is_appended_is_what_changed(
    label: Seq<char>,
    values: Seq<Seq<char>>,
    held: Seq<Seq<char>>,
)
    ensures
        planned(label, values, held).changed.len() == planned(label, values, held).appends.len(),
        forall|i: int|
            0 <= i < planned(label, values, held).appends.len() ==> planned(
                label,
                values,
                held,
            ).changed[i] == label + " "@ + #[trigger] planned(label, values, held).appends[i],
    decreases values.len(),
{
    if values.len() > 0 {
        what_is_appended_is_what_changed(label, values.drop_last(), held);
        let before = planned(label, values.drop_last(), held);
        let after = planned(label, values, held);
        assert forall|i: int| 0 <= i < after.appends.len() implies after.changed[i] == label + " "@
            + #[trigger] after.appends[i] by {
            if i < before.appends.len() {
                assert(after.appends[i] == before.appends[i]);
                assert(after.changed[i] == before.changed[i]);
            }
        }
    }
}

/// A value was there before another, in whatever shape.
pub open spec fn came_earlier(values: Seq<Seq<char>>, i: int, key: Seq<char>) -> bool {
    exists|j: int| 0 <= j < i && contacts::key(text::trim(#[trigger] values[j])) == Some(key)
}

/// No value is lost: where none is blank, each is appended to the card, or said to be
/// there already because the card holds it or an earlier value was the same in another
/// shape.
pub proof fn every_value_is_accounted_for(
    label: Seq<char>,
    values: Seq<Seq<char>>,
    held: Seq<Seq<char>>,
    i: int,
)
    requires
        0 <= i < values.len(),
        forall|j: int| 0 <= j < values.len() ==> text::trim(#[trigger] values[j]).len() > 0,
    ensures
        planned(label, values, held).appends.contains(text::trim(values[i])) || (planned(
            label,
            values,
            held,
        ).unchanged.contains(label + " "@ + text::trim(values[i])) && contacts::key(
            text::trim(values[i]),
        ) is Some && (keys(held).contains(contacts::key(text::trim(values[i]))->0) || came_earlier(
            values,
            i,
            contacts::key(text::trim(values[i]))->0,
        ))),
    decreases values.len(),
{
    let rest = values.drop_last();
    let before = planned(label, rest, held);
    let after = planned(label, values, held);
    let value = text::trim(values[i]);
    assert forall|j: int| 0 <= j < rest.len() implies text::trim(#[trigger] rest[j]).len() > 0 by {
        assert(values[j] == rest[j]);
    }
    blank_is_noticed(label, rest, held);
    if i < rest.len() {
        assert(rest[i] == values[i]);
        every_value_is_accounted_for(label, rest, held, i);
        if before.appends.contains(value) {
            let k = choose|k: int| 0 <= k < before.appends.len() && before.appends[k] == value;
            assert(after.appends[k] == value);
        } else {
            let line = label + " "@ + value;
            let k = choose|k: int| 0 <= k < before.unchanged.len() && before.unchanged[k] == line;
            assert(after.unchanged[k] == line);
            let key = contacts::key(value)->0;
            if came_earlier(rest, i, key) {
                let j = choose|j: int|
                    0 <= j < i && contacts::key(text::trim(#[trigger] rest[j])) == Some(key);
                assert(values[j] == rest[j]);
            }
        }
    } else {
        match contacts::key(value) {
            Some(key) => {
                if before.held.contains(key) {
                    assert(after.unchanged[after.unchanged.len() - 1] == label + " "@ + value);
                    what_is_held_came_from(label, rest, held, key);
                    if !keys(held).contains(key) {
                        let j = choose|j: int|
                            0 <= j < rest.len() && contacts::key(text::trim(#[trigger] rest[j]))
                                == Some(key);
                        assert(values[j] == rest[j]);
                    }
                } else {
                    assert(after.appends[after.appends.len() - 1] == value);
                }
            },
            None => {
                assert(after.appends[after.appends.len() - 1] == value);
            },
        }
    }
}

proof fn what_is_held_came_from(
    label: Seq<char>,
    values: Seq<Seq<char>>,
    held: Seq<Seq<char>>,
    key: Seq<char>,
)
    requires
        planned(label, values, held).held.contains(key),
    ensures
        keys(held).contains(key) || came_earlier(values, values.len() as int, key),
    decreases values.len(),
{
    if values.len() > 0 {
        let rest = values.drop_last();
        let before = planned(label, rest, held).held;
        let after = planned(label, values, held).held;
        let k = choose|k: int| 0 <= k < after.len() && after[k] == key;
        if k < before.len() {
            assert(before[k] == key);
            what_is_held_came_from(label, rest, held, key);
            if came_earlier(rest, rest.len() as int, key) {
                let j = choose|j: int|
                    0 <= j < rest.len() && contacts::key(text::trim(#[trigger] rest[j])) == Some(
                        key,
                    );
                assert(values[j] == rest[j]);
            }
        } else {
            assert(contacts::key(text::trim(values[values.len() - 1])) == Some(key));
        }
    }
}

/// What was written was handed to the store field by field: a title as the title, an
/// organization as the organization and a note as the note, each said to have changed; and
/// no number was blank.
pub proof fn each_field_is_written_as_itself<S: ContactStore>(
    store: &S,
    id: Seq<char>,
    fields: Fields,
    read_existing: bool,
    changed: Seq<Seq<char>>,
    unchanged: Seq<Seq<char>>,
)
    requires
        wrote(store, id, fields, read_existing, changed, unchanged),
    ensures
        fields.title matches Some(title) ==> setting(
            store,
            id,
            TextField::Title,
            title@,
            Ok(()),
        ) && changed.contains("title"@ + " "@ + title@),
        fields.org matches Some(org) ==> setting(store, id, TextField::Org, org@, Ok(()))
            && changed.contains("org"@ + " "@ + org@),
        fields.note matches Some(note) ==> setting(store, id, TextField::Note, note@, Ok(()))
            && changed.contains("note"@ + " "@ + note@),
        forall|i: int|
            0 <= i < fields.phones@.len() ==> text::trim((#[trigger] fields.phones@[i])@).len() > 0,
{
    let (phones, emails) = choose|phones: Seq<Seq<char>>, emails: Seq<Seq<char>>|
        {
            &&& written(store, id, fields, read_existing, phones, emails)
            &&& changed == #[trigger] changes(fields, phones, emails)
            &&& unchanged == kept(fields, phones, emails)
        };
    let a = planned("phone"@, text::all_of(fields.phones@), phones).changed;
    let b = planned("email"@, text::all_of(fields.emails@), emails).changed;
    let c = text_change(TextField::Title, text::maybe_str(fields.title));
    let d = text_change(TextField::Org, text::maybe_str(fields.org));
    let e = text_change(TextField::Note, text::maybe_str(fields.note));
    assert(changed == a + b + c + d + e);
    if let Some(title) = fields.title {
        assert(changed[(a + b).len() as int] == "title"@ + " "@ + title@);
    }
    if let Some(org) = fields.org {
        assert(changed[(a + b + c).len() as int] == "org"@ + " "@ + org@);
    }
    if let Some(note) = fields.note {
        assert(changed[(a + b + c + d).len() as int] == "note"@ + " "@ + note@);
    }
    let numbers = text::all_of(fields.phones@);
    blank_is_noticed("phone"@, numbers, phones);
    assert forall|i: int| 0 <= i < fields.phones@.len() implies text::trim(
        (#[trigger] fields.phones@[i])@,
    ).len() > 0 by {
        assert(numbers[i] == fields.phones@[i]@);
    }
}

/// Somebody's card is looked for under the name it is filed by, and under the name they
/// are shown by only where that is the same.
pub proof fn a_card_is_looked_for_as_it_is_filed(person: PersonView)
    ensures
        person.filed_as matches Some(filed) ==> filed_name(person) == filed,
        person.filed_as is None ==> filed_name(person) == person.name,
{
}

} // verus!
