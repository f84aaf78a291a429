//! Name lookup for handles, over the records Contacts holds.
use vstd::prelude::*;

use crate::matching::{self, begins_a_word};
use crate::order::{self, Ordered, Ranked, is_text_before, sort};
use crate::text::{
    self, borrowed, chars_of, copied, count_of, has_char, joined, pieces, same, slice_text,
    text_of, trim_text, trimmed,
};
use crate::{Error, ErrorView};

verus! {

/// Digits kept when matching phone numbers, which covers NANP numbers in full.
pub const MATCH_DIGITS: usize = 10;

/// How many candidates an ambiguity names before it only counts them.
pub const LISTED: usize = 12;

/// One Contacts record: who it is, kept apart from what it renders as.
///
/// Two records can legitimately carry the same name — an old entry and a new
/// one, a father and a son — so anything that groups people has to group by
/// `id` and merely *display* `name`. Grouping by the name merges strangers.
#[derive(Debug, PartialEq, Eq)]
pub struct Contact {
    /// Source plus record id. Unique for as long as the index lives.
    pub id: String,
    /// The address this entry was reached by, in the shape Contacts stored it.
    /// One record appears once per address it has, each carrying its own.
    pub handle: String,
    /// What to call them: the nickname when Contacts holds one, else the name
    /// the record is filed under.
    pub name: String,
    /// The name on the record, when a nickname is being shown instead of it.
    /// Both names reach the person; only one of them is shown.
    pub filed_as: Option<String>,
    /// What Contacts calls this address: `mobile`, `home`, a custom string, or
    /// nothing.
    pub label: Option<String>,
}

/// A [`Contact`], by its characters.
#[verifier::ext_equal]
pub struct ContactView {
    pub id: Seq<char>,
    pub handle: Seq<char>,
    pub name: Seq<char>,
    pub filed_as: Option<Seq<char>>,
    pub label: Option<Seq<char>>,
}

impl View for Contact {
    type V = ContactView;

    open spec fn view(&self) -> ContactView {
        ContactView {
            id: self.id@,
            handle: self.handle@,
            name: self.name@,
            filed_as: text::maybe(self.filed_as),
            label: text::maybe(self.label),
        }
    }
}

impl ContactView {
    /// One of the two names starts a word with `needle`.
    pub open spec fn answers(self, needle: Seq<char>) -> bool {
        matching::begins(text::lowercase(self.name), needle) || (self.filed_as is Some
            && matching::begins(text::lowercase(self.filed_as->0), needle))
    }

    /// One of the two names is `needle` and nothing more.
    pub open spec fn named(self, needle: Seq<char>) -> bool {
        exact_name(self.name, self.filed_as, needle)
    }
}

impl Clone for Contact {
    fn clone(&self) -> (out: Contact)
        ensures
            out == *self,
    {
        Contact {
            id: self.id.clone(),
            handle: self.handle.clone(),
            name: self.name.clone(),
            filed_as: copied(&self.filed_as),
            label: copied(&self.label),
        }
    }
}

impl Contact {
    /// Whether this contact answers to `needle`: part of the name they are shown
    /// as, or part of the one they are filed under.
    ///
    /// Part, but from the start of a word. A first name inside somebody else's
    /// surname is not a match. `needle` must already be lowercased, since one
    /// query is matched against every contact rather than the other way round.
    pub fn answers_to(&self, needle: &str) -> (yes: bool)
        ensures
            yes == self@.answers(needle@),
    {
        if begins_a_word(self.name.to_lowercase().as_str(), needle) {
            return true;
        }
        match &self.filed_as {
            Some(filed) => begins_a_word(filed.to_lowercase().as_str(), needle),
            None => false,
        }
    }

    /// Whether one of those names is exactly `needle`, for breaking a tie
    /// between the people a fragment matched.
    pub fn is_named(&self, needle: &str) -> (yes: bool)
        ensures
            yes == self@.named(needle@),
    {
        exactly_named(self.name.as_str(), borrowed(&self.filed_as), needle)
    }
}

/// `needle` is one of two names in full, case aside.
pub open spec fn exact_name(
    name: Seq<char>,
    filed_as: Option<Seq<char>>,
    needle: Seq<char>,
) -> bool {
    text::lowercase(name) == needle || (filed_as is Some && text::lowercase(filed_as->0) == needle)
}

/// Whether `needle` — already lowercased — is exactly one of somebody's two
/// names, whichever is shown.
pub fn exactly_named(name: &str, filed_as: Option<&str>, needle: &str) -> (yes: bool)
    ensures
        yes == exact_name(name@, text::maybe_str(filed_as), needle@),
{
    if same(name.to_lowercase().as_str(), needle) {
        return true;
    }
    match filed_as {
        Some(filed) => same(filed.to_lowercase().as_str(), needle),
        None => false,
    }
}

/// The ASCII digits of `s`, in order.
pub open spec fn digits_in(s: Seq<char>) -> Seq<char>
    decreases s.len(),
{
    if s.len() == 0 {
        Seq::<char>::empty()
    } else if text::ascii_digit(s.last()) {
        digits_in(s.drop_last()).push(s.last())
    } else {
        digits_in(s.drop_last())
    }
}

/// What two shapes of one address have in common: an email address in
/// lowercase, or the last ten digits of a number. Nothing where the text is
/// neither.
pub open spec fn key(handle: Seq<char>) -> Option<Seq<char>> {
    let trimmed = text::trim(handle);
    let digits = digits_in(trimmed);
    if trimmed.len() == 0 {
        None
    } else if trimmed.contains('@') {
        Some(text::lowercase(trimmed))
    } else if digits.len() == 0 {
        None
    } else if digits.len() > MATCH_DIGITS {
        Some(digits.skip(digits.len() - MATCH_DIGITS))
    } else {
        Some(digits)
    }
}

/// The ASCII digits of `s`.
fn digits_of_text(s: &[char]) -> (out: Vec<char>)
    ensures
        out@ == digits_in(s@),
{
    let mut out: Vec<char> = Vec::new();
    for i in 0..s.len()
        invariant
            out@ == digits_in(s@.take(i as int)),
    {
        assert(s@.take(i + 1).drop_last() =~= s@.take(i as int));
        if '0' <= s[i] && s[i] <= '9' {
            out.push(s[i]);
        }
    }
    assert(s@.take(s@.len() as int) =~= s@);
    out
}

/// Reduce a handle to a comparable key.
///
/// Contacts stores numbers in whatever shape they were typed, so both sides are
/// stripped to digits. Numbers long enough to carry a country code are matched
/// on their final digits, which keeps `+13105551234` and `(310) 555-1234`
/// together.
pub fn handle_key(handle: &str) -> (out: Option<String>)
    ensures
        text::maybe(out) == key(handle@),
{
    let chars = chars_of(handle);
    let trimmed = trimmed(&chars);
    if trimmed.len() == 0 {
        return None;
    }
    if has_char(&trimmed, '@') {
        let address = text_of(&trimmed);
        return Some(address.to_lowercase());
    }
    let digits = digits_of_text(&trimmed);
    if digits.len() == 0 {
        return None;
    }
    let from: usize = if digits.len() > MATCH_DIGITS {
        digits.len() - MATCH_DIGITS
    } else {
        0
    };
    proof {
        assert(digits@.subrange(from as int, digits@.len() as int) =~= digits@.skip(from as int));
        assert(digits@.skip(0) =~= digits@);
    }
    Some(slice_text(&digits, from, digits.len()))
}

/// A character written between the digits of a phone number.
pub open spec fn separator(c: char) -> bool {
    c == ' ' || c == '(' || c == ')' || c == '-' || c == '.' || c == '/' || c == '\u{a0}'
}

/// `s` without its separators.
pub open spec fn without_separators(s: Seq<char>) -> Seq<char>
    decreases s.len(),
{
    if s.len() == 0 {
        Seq::<char>::empty()
    } else if separator(s.last()) {
        without_separators(s.drop_last())
    } else {
        without_separators(s.drop_last()).push(s.last())
    }
}

/// `s` after one leading `+`, if it has one.
pub open spec fn after_plus(s: Seq<char>) -> Seq<char> {
    if s.len() > 0 && s[0] == '+' {
        s.drop_first()
    } else {
        s
    }
}

/// A stored number the way a script wants it.
pub open spec fn emitted(stored: Seq<char>) -> Seq<char> {
    let stripped = without_separators(text::trim(stored));
    if text::all_digits(after_plus(stripped)) {
        stripped
    } else {
        text::trim(stored)
    }
}

/// A phone number the way a script wants it: separators dropped, digits and a
/// leading `+` kept, anything stranger passed through as stored. The `+` is
/// never invented.
pub fn emit_phone(stored: &str) -> (out: String)
    ensures
        out@ == emitted(stored@),
{
    let chars = chars_of(stored);
    let trimmed = trimmed(&chars);
    let mut stripped: Vec<char> = Vec::new();
    for i in 0..trimmed.len()
        invariant
            stripped@ == without_separators(trimmed@.take(i as int)),
    {
        assert(trimmed@.take(i + 1).drop_last() =~= trimmed@.take(i as int));
        let c: char = trimmed[i];
        if !(c == ' ' || c == '(' || c == ')' || c == '-' || c == '.' || c == '/' || c == '\u{a0}')
        {
            stripped.push(c);
        }
    }
    assert(trimmed@.take(trimmed@.len() as int) =~= trimmed@);
    let from: usize = if stripped.len() > 0 && stripped[0] == '+' {
        1
    } else {
        0
    };
    let ghost digits = after_plus(stripped@);
    assert(digits =~= stripped@.skip(from as int));
    let mut plain: bool = from < stripped.len();
    for i in from..stripped.len()
        invariant
            from <= stripped@.len(),
            digits == stripped@.skip(from as int),
            plain ==> forall|j: int| 0 <= j < i - from ==> text::ascii_digit(#[trigger] digits[j]),
            !plain ==> !text::all_digits(digits),
            plain ==> from < stripped@.len(),
    {
        if !('0' <= stripped[i] && stripped[i] <= '9') {
            assert(!text::ascii_digit(digits[i - from]));
            plain = false;
        }
    }
    if plain {
        text_of(&stripped)
    } else {
        text_of(&trimmed)
    }
}

/// Writing a number out never adds to it: every character was there before.
pub proof fn a_written_number_invents_nothing(stored: Seq<char>, i: int)
    requires
        0 <= i < emitted(stored).len(),
    ensures
        text::trim(stored).contains(emitted(stored)[i]),
{
    let trimmed = text::trim(stored);
    if text::all_digits(after_plus(without_separators(trimmed))) {
        kept_are_from(trimmed, i);
    } else {
        assert(trimmed[i] == emitted(stored)[i]);
    }
}

proof fn kept_are_from(s: Seq<char>, i: int)
    requires
        0 <= i < without_separators(s).len(),
    ensures
        s.contains(without_separators(s)[i]),
    decreases s.len(),
{
    let rest = without_separators(s.drop_last());
    if i < rest.len() {
        kept_are_from(s.drop_last(), i);
        let c = without_separators(s)[i];
        let j = choose|j: int| 0 <= j < s.drop_last().len() && s.drop_last()[j] == c;
        assert(s[j] == c);
    } else {
        assert(s[s.len() - 1] == without_separators(s)[i]);
    }
}

/// A number's key depends on nothing but its digits: two shapes of one number
/// are the same number.
pub proof fn a_number_is_its_digits(a: Seq<char>, b: Seq<char>)
    requires
        !text::trim(a).contains('@'),
        !text::trim(b).contains('@'),
        digits_in(text::trim(a)) == digits_in(text::trim(b)),
    ensures
        key(a) == key(b),
{
    if text::trim(a).len() == 0 {
        assert(digits_in(text::trim(a)).len() == 0);
    }
    if text::trim(b).len() == 0 {
        assert(digits_in(text::trim(b)).len() == 0);
    }
}

/// Digits are themselves when their digits are taken.
proof fn digits_stay(s: Seq<char>)
    requires
        forall|i: int| 0 <= i < s.len() ==> text::ascii_digit(#[trigger] s[i]),
    ensures
        digits_in(s) == s,
    decreases s.len(),
{
    if s.len() > 0 {
        assert forall|i: int| 0 <= i < s.drop_last().len() implies text::ascii_digit(
            #[trigger] s.drop_last()[i],
        ) by {
            assert(s[i] == s.drop_last()[i]);
        }
        digits_stay(s.drop_last());
        assert(s.drop_last().push(s.last()) =~= s);
    }
}

proof fn digits_are_digits(s: Seq<char>)
    ensures
        forall|i: int| 0 <= i < digits_in(s).len() ==> text::ascii_digit(#[trigger] digits_in(s)[i]),
        digits_in(s).len() <= s.len(),
    decreases s.len(),
{
    if s.len() > 0 {
        digits_are_digits(s.drop_last());
    }
}

/// A number's key is its own key, and never longer than ten digits.
pub proof fn a_key_is_its_own_key(handle: Seq<char>)
    requires
        key(handle) is Some,
        !text::trim(handle).contains('@'),
    ensures
        key(key(handle)->0) == key(handle),
        1 <= key(handle)->0.len() <= MATCH_DIGITS,
{
    let digits = digits_in(text::trim(handle));
    let k = key(handle)->0;
    digits_are_digits(text::trim(handle));
    assert forall|i: int| 0 <= i < k.len() implies text::ascii_digit(#[trigger] k[i]) by {
        if digits.len() > MATCH_DIGITS {
            assert(k[i] == digits[i + digits.len() - MATCH_DIGITS]);
        } else {
            assert(k[i] == digits[i]);
        }
    }
    digits_stay(k);
    assert(text::ascii_digit(k[0]));
    assert(text::ascii_digit(k.last()));
    assert(text::trim(k) == k);
    assert(!k.contains('@')) by {
        if k.contains('@') {
            let i = choose|i: int| 0 <= i < k.len() && k[i] == '@';
            assert(text::ascii_digit(k[i]));
        }
    }
}

proof fn nothing_white_is_left_in_front(s: Seq<char>)
    ensures
        text::trim_start(s).len() > 0 ==> !text::white(text::trim_start(s)[0]),
    decreases s.len(),
{
    if s.len() > 0 && text::white(s[0]) {
        nothing_white_is_left_in_front(s.drop_first());
    }
}

proof fn nothing_white_is_left_behind(s: Seq<char>)
    ensures
        text::trim_end(s).len() > 0 ==> !text::white(text::trim_end(s).last())
            && text::trim_end(s)[0] == s[0],
    decreases s.len(),
{
    if s.len() > 0 && text::white(s.last()) {
        nothing_white_is_left_behind(s.drop_last());
    }
}

proof fn digits_in_parts(a: Seq<char>, b: Seq<char>)
    ensures
        digits_in(a + b) == digits_in(a) + digits_in(b),
    decreases b.len(),
{
    if b.len() == 0 {
        assert(a + b =~= a);
        assert(digits_in(a) + digits_in(b) =~= digits_in(a));
    } else {
        assert((a + b).drop_last() =~= a + b.drop_last());
        digits_in_parts(a, b.drop_last());
        assert(digits_in(a + b) =~= digits_in(a) + digits_in(b));
    }
}

proof fn trimming_in_front_keeps_what_counts(s: Seq<char>)
    ensures
        text::trim_start(s).contains('@') == s.contains('@'),
        digits_in(text::trim_start(s)) == digits_in(s),
    decreases s.len(),
{
    if s.len() > 0 && text::white(s[0]) {
        let rest = s.drop_first();
        trimming_in_front_keeps_what_counts(rest);
        let front = seq![s[0]];
        assert(s =~= front + rest);
        digits_in_parts(front, rest);
        reveal_with_fuel(digits_in, 2);
        assert(front.last() == s[0] && !text::ascii_digit(s[0]));
        assert(digits_in(front) =~= Seq::<char>::empty());
        assert(digits_in(front) + digits_in(rest) =~= digits_in(rest));
        if s.contains('@') {
            let i = choose|i: int| 0 <= i < s.len() && s[i] == '@';
            assert(rest[i - 1] == '@');
        }
        if rest.contains('@') {
            let i = choose|i: int| 0 <= i < rest.len() && rest[i] == '@';
            assert(s[i + 1] == '@');
        }
    }
}

proof fn trimming_behind_keeps_what_counts(s: Seq<char>)
    ensures
        text::trim_end(s).contains('@') == s.contains('@'),
        digits_in(text::trim_end(s)) == digits_in(s),
    decreases s.len(),
{
    if s.len() > 0 && text::white(s.last()) {
        let rest = s.drop_last();
        trimming_behind_keeps_what_counts(rest);
        if s.contains('@') {
            let i = choose|i: int| 0 <= i < s.len() && s[i] == '@';
            assert(rest[i] == '@');
        }
        if rest.contains('@') {
            let i = choose|i: int| 0 <= i < rest.len() && rest[i] == '@';
            assert(s[i] == '@');
        }
    }
}

/// A handle has a key exactly where it holds an `@` or a digit, and the digits of
/// a number count wherever they stand in it: a short code stays whole.
pub proof fn what_has_a_key(handle: Seq<char>)
    ensures
        key(handle) is None <==> !handle.contains('@') && digits_in(handle).len() == 0,
        !handle.contains('@') && 0 < digits_in(handle).len() <= MATCH_DIGITS ==> key(handle) == Some(
            digits_in(handle),
        ),
        !handle.contains('@') && digits_in(handle).len() > MATCH_DIGITS ==> key(handle) == Some(
            digits_in(handle).skip(digits_in(handle).len() - MATCH_DIGITS),
        ),
        handle.contains('@') ==> key(handle) == Some(text::lowercase(text::trim(handle))),
{
    trimming_in_front_keeps_what_counts(handle);
    trimming_behind_keeps_what_counts(text::trim_start(handle));
}

/// An email address's key is its own key, where lowercasing folds the case of its
/// ASCII letters and nothing else, as it does in every ASCII address.
pub proof fn an_address_is_its_own_key(handle: Seq<char>)
    requires
        text::trim(handle).contains('@'),
        text::lowercase(text::trim(handle)) == text::ascii_lowercase(text::trim(handle)),
        text::lowercase(text::lowercase(text::trim(handle))) == text::ascii_lowercase(
            text::lowercase(text::trim(handle)),
        ),
    ensures
        key(handle) is Some,
        key(key(handle)->0) == key(handle),
{
    let address = text::trim(handle);
    let k = text::lowercase(address);
    nothing_white_is_left_in_front(handle);
    nothing_white_is_left_behind(text::trim_start(handle));
    assert(!text::white(k[0]) && !text::white(k.last()));
    assert(text::trim(k) == k);
    let i = choose|i: int| 0 <= i < address.len() && address[i] == '@';
    assert(k[i] == '@');
    assert(text::lowercase(k) =~= k) by {
        assert forall|j: int| 0 <= j < k.len() implies text::ascii_lower(#[trigger] k[j])
            == k[j] by {
            assert(k[j] == text::ascii_lower(address[j]));
        }
    }
}

/// One identifier and what Contacts calls it, the shape `resolve` publishes.
#[derive(Debug, Clone, PartialEq, Eq)]
pub struct LabeledValue {
    pub value: String,
    pub label: Option<String>,
}

/// A [`LabeledValue`], by its characters.
#[verifier::ext_equal]
pub struct LabeledView {
    pub value: Seq<char>,
    pub label: Option<Seq<char>>,
}

impl View for LabeledValue {
    type V = LabeledView;

    open spec fn view(&self) -> LabeledView {
        LabeledView { value: self.value@, label: text::maybe(self.label) }
    }
}

impl Ordered for LabeledView {
    open spec fn before(&self, other: &Self) -> bool {
        order::text_before(self.value, other.value)
    }
}

impl Ordered for LabeledValue {
    open spec fn before(&self, other: &Self) -> bool {
        order::text_before(self.value@, other.value@)
    }
}

impl Ranked for LabeledValue {
    fn is_before(&self, other: &Self) -> (yes: bool) {
        is_text_before(self.value.as_str(), other.value.as_str())
    }
}

/// Several labeled values, each by its characters.
pub open spec fn labeled_views(values: Seq<LabeledValue>) -> Seq<LabeledView> {
    values.map_values(|value: LabeledValue| value@)
}

/// A person assembled whole: one Contacts record and every address it
/// carries.
#[derive(Debug, Clone, PartialEq, Eq)]
pub struct PersonRecord {
    /// Opaque, and not durable across resyncs.
    pub id: String,
    /// What to call them: the nickname when Contacts holds one.
    pub name: String,
    /// The name the record is filed under, when a nickname displaced it.
    pub filed_as: Option<String>,
    pub emails: Vec<LabeledValue>,
    pub phones: Vec<LabeledValue>,
}

/// A [`PersonRecord`], by its characters.
#[verifier::ext_equal]
pub struct PersonView {
    pub id: Seq<char>,
    pub name: Seq<char>,
    pub filed_as: Option<Seq<char>>,
    pub emails: Seq<LabeledView>,
    pub phones: Seq<LabeledView>,
}

impl View for PersonRecord {
    type V = PersonView;

    open spec fn view(&self) -> PersonView {
        PersonView {
            id: self.id@,
            name: self.name@,
            filed_as: text::maybe(self.filed_as),
            emails: labeled_views(self.emails@),
            phones: labeled_views(self.phones@),
        }
    }
}

/// Where the entry for a key is among `contacts`.
pub open spec fn place(contacts: Seq<ContactView>, wanted: Seq<char>) -> Option<nat>
    decreases contacts.len(),
{
    if contacts.len() == 0 {
        None
    } else {
        match place(contacts.drop_last(), wanted) {
            Some(at) => Some(at),
            None => if key(contacts.last().handle) == Some(wanted) {
                Some((contacts.len() - 1) as nat)
            } else {
                None
            },
        }
    }
}

/// The entry a handle reaches, whatever shape it is written in.
pub open spec fn held(contacts: Seq<ContactView>, handle: Seq<char>) -> Option<ContactView> {
    match key(handle) {
        None => None,
        Some(wanted) => match place(contacts, wanted) {
            None => None,
            Some(at) => Some(contacts[at as int]),
        },
    }
}

/// The place of a key is the first entry with it.
pub proof fn place_is_first(contacts: Seq<ContactView>, wanted: Seq<char>)
    ensures
        match place(contacts, wanted) {
            Some(at) => at < contacts.len() && key(contacts[at as int].handle) == Some(wanted)
                && forall|i: int|
                0 <= i < at ==> key(#[trigger] contacts[i].handle) != Some(wanted),
            None => forall|i: int|
                0 <= i < contacts.len() ==> key(#[trigger] contacts[i].handle) != Some(wanted),
        },
    decreases contacts.len(),
{
    if contacts.len() > 0 {
        let rest = contacts.drop_last();
        place_is_first(rest, wanted);
        assert forall|i: int| 0 <= i < rest.len() implies #[trigger] contacts[i] == rest[i] by {}
    }
}

/// `contacts` with one more entry, which replaces the one that has its key.
pub open spec fn put(contacts: Seq<ContactView>, contact: ContactView) -> Seq<ContactView> {
    match key(contact.handle) {
        None => contacts,
        Some(wanted) => match place(contacts, wanted) {
            Some(at) => contacts.update(at as int, contact),
            None => contacts.push(contact),
        },
    }
}

/// `contacts` with one more entry, unless one has its key already.
pub open spec fn offered(contacts: Seq<ContactView>, contact: ContactView) -> Seq<ContactView> {
    match key(contact.handle) {
        None => contacts,
        Some(wanted) => match place(contacts, wanted) {
            Some(_) => contacts,
            None => contacts.push(contact),
        },
    }
}

/// Every entry has a key and no two have the same one.
pub open spec fn keyed(contacts: Seq<ContactView>) -> bool {
    &&& forall|i: int| 0 <= i < contacts.len() ==> key(#[trigger] contacts[i].handle) is Some
    &&& forall|i: int, j: int|
        0 <= i < j < contacts.len() ==> key(#[trigger] contacts[i].handle) != key(
            #[trigger] contacts[j].handle,
        )
}

/// Handle-to-contact, plus why it is emptier than expected when it is.
///
/// Contacts is best-effort — messages still read without it — but silently
/// best-effort is how an empty index went unnoticed until names stopped
/// resolving with no explanation anywhere.
pub struct ContactIndex {
    keys: Vec<String>,
    contacts: Vec<Contact>,
    problems: Vec<String>,
}

/// A [`ContactIndex`]: its entries and its problems, by their characters.
#[verifier::ext_equal]
pub struct IndexView {
    pub contacts: Seq<ContactView>,
    pub problems: Seq<Seq<char>>,
}

/// Several contacts, each by its characters.
pub open spec fn contact_views(contacts: Seq<Contact>) -> Seq<ContactView> {
    contacts.map_values(|contact: Contact| contact@)
}

impl View for ContactIndex {
    type V = IndexView;

    closed spec fn view(&self) -> IndexView {
        IndexView {
            contacts: contact_views(self.contacts@),
            problems: text::all_of(self.problems@),
        }
    }
}

/// An index keeps one entry per key, whichever of two entries wins it.
pub proof fn an_index_stays_keyed(contacts: Seq<ContactView>, contact: ContactView)
    requires
        keyed(contacts),
    ensures
        keyed(put(contacts, contact)),
        keyed(offered(contacts, contact)),
{
    if let Some(wanted) = key(contact.handle) {
        place_is_first(contacts, wanted);
    }
}

/// The parts of an index agree: each key is its contact's, and none repeats.
spec fn agree(keys: Seq<String>, contacts: Seq<Contact>) -> bool {
    &&& keyed(contact_views(contacts))
    &&& keys.len() == contacts.len()
    &&& forall|i: int|
        0 <= i < keys.len() ==> key(contacts[i].handle@) == Some(#[trigger] keys[i]@)
}

/// Where the entry for a key is.
fn place_of(keys: &Vec<String>, Ghost(contacts): Ghost<Seq<Contact>>, wanted: &str) -> (out: Option<
    usize,
>)
    requires
        agree(keys@, contacts),
    ensures
        match place(contact_views(contacts), wanted@) {
            Some(at) => out is Some && out->0 == at && at < keys@.len(),
            None => out is None,
        },
{
    let ghost all = contact_views(contacts);
    proof {
        place_is_first(all, wanted@);
    }
    for i in 0..keys.len()
        invariant
            agree(keys@, contacts),
            all == contact_views(contacts),
            forall|j: int| 0 <= j < i ==> keys@[j]@ != wanted@,
            match place(all, wanted@) {
                Some(at) => at < all.len() && key(all[at as int].handle) == Some(wanted@)
                    && forall|i: int|
                    0 <= i < at ==> key(#[trigger] all[i].handle) != Some(wanted@),
                None => forall|i: int|
                    0 <= i < all.len() ==> key(#[trigger] all[i].handle) != Some(wanted@),
            },
    {
        assert(key(all[i as int].handle) == Some(keys@[i as int]@));
        if same(keys[i].as_str(), wanted) {
            proof {
                let at = place(all, wanted@)->0;
                if at < i {
                    assert(keys@[at as int]@ != wanted@);
                    assert(key(contacts[at as int].handle@) == Some(keys@[at as int]@));
                }
            }
            return Some(i);
        }
    }
    proof {
        if let Some(at) = place(all, wanted@) {
            assert(key(contacts[at as int].handle@) == Some(keys@[at as int]@));
        }
    }
    None
}

/// Add an entry, or let it replace or lose to the one that has its key.
fn enter(keys: &mut Vec<String>, contacts: &mut Vec<Contact>, contact: Contact, replace: bool)
    requires
        agree(old(keys)@, old(contacts)@),
    ensures
        agree(final(keys)@, final(contacts)@),
        contact_views(final(contacts)@) == (if replace {
            put(contact_views(old(contacts)@), contact@)
        } else {
            offered(contact_views(old(contacts)@), contact@)
        }),
{
    let ghost was = contacts@;
    let ghost all = contact_views(contacts@);
    proof {
        an_index_stays_keyed(all, contact@);
    }
    let ghost entry = contact;
    if let Some(wanted) = handle_key(contact.handle.as_str()) {
        match place_of(keys, Ghost(contacts@), wanted.as_str()) {
            Some(at) => {
                if replace {
                    contacts.push(contact);
                    let _ = contacts.swap_remove(at);
                    proof {
                        assert(contacts@ =~= was.update(at as int, entry));
                        assert(contact_views(contacts@) =~= all.update(at as int, entry@));
                        place_is_first(all, wanted@);
                        assert(key(was[at as int].handle@) == Some(keys@[at as int]@));
                        assert(key(all[at as int].handle) == Some(wanted@));
                    }
                }
            },
            None => {
                keys.push(wanted);
                contacts.push(contact);
                proof {
                    assert(contact_views(contacts@) =~= all.push(entry@));
                }
            },
        }
    }
}

impl Ordered for ContactView {
    open spec fn before(&self, other: &Self) -> bool {
        order::text_before(self.name, other.name) || (self.name == other.name
            && order::text_before(self.handle, other.handle))
    }
}

impl<'a> Ordered for &'a Contact {
    open spec fn before(&self, other: &Self) -> bool {
        self@.before(&other@)
    }
}

impl<'a> Ranked for &'a Contact {
    fn is_before(&self, other: &Self) -> (yes: bool) {
        if is_text_before(self.name.as_str(), other.name.as_str()) {
            return true;
        }
        same(self.name.as_str(), other.name.as_str()) && is_text_before(
            self.handle.as_str(),
            other.handle.as_str(),
        )
    }
}

/// Several borrowed contacts, each by its characters.
pub open spec fn seen(contacts: Seq<&Contact>) -> Seq<ContactView> {
    contacts.map_values(|contact: &Contact| contact@)
}

/// The entries that answer to a needle, as they stand.
pub open spec fn answering(contacts: Seq<ContactView>, needle: Seq<char>) -> Seq<ContactView>
    decreases contacts.len(),
{
    if contacts.len() == 0 {
        Seq::empty()
    } else if contacts.last().answers(needle) {
        answering(contacts.drop_last(), needle).push(contacts.last())
    } else {
        answering(contacts.drop_last(), needle)
    }
}

/// What a name is matched by: the term without the space around it, in
/// lowercase.
pub open spec fn needle_of(term: Seq<char>) -> Seq<char> {
    text::lowercase(text::trim(term))
}

/// Everyone a term reaches: the entry at that address if it is one, and
/// otherwise everyone who answers to it, by name and then address.
pub open spec fn found(contacts: Seq<ContactView>, term: Seq<char>) -> Seq<ContactView> {
    match held(contacts, term) {
        Some(exact) => seq![exact],
        None => if needle_of(term).len() == 0 {
            Seq::empty()
        } else {
            order::stably(answering(contacts, needle_of(term)))
        },
    }
}

/// `people` without those who share an id with somebody ahead of them, in the
/// order of their ids.
pub open spec fn by_id(people: Seq<ContactView>) -> Seq<ContactView>
    decreases people.len(),
{
    if people.len() == 0 {
        Seq::empty()
    } else {
        let rest = by_id(people.drop_last());
        if has_id(rest, people.last().id) {
            rest
        } else {
            rest.insert(id_slot(rest, people.last().id) as int, people.last())
        }
    }
}

/// One of `people` has this id.
pub open spec fn has_id(people: Seq<ContactView>, id: Seq<char>) -> bool {
    exists|i: int| 0 <= i < people.len() && #[trigger] people[i].id == id
}

/// How many of `people` stay ahead of an id.
pub open spec fn id_slot(people: Seq<ContactView>, id: Seq<char>) -> nat
    decreases people.len(),
{
    if people.len() == 0 || !order::text_before(id, people.last().id) {
        people.len()
    } else {
        id_slot(people.drop_last(), id)
    }
}

/// Those of `people` who are named exactly `needle`.
pub open spec fn exactly(people: Seq<ContactView>, needle: Seq<char>) -> Seq<ContactView>
    decreases people.len(),
{
    if people.len() == 0 {
        Seq::empty()
    } else if people.last().named(needle) {
        exactly(people.drop_last(), needle).push(people.last())
    } else {
        exactly(people.drop_last(), needle)
    }
}

/// The people a name means, one entry each: everyone who answers to it, or the
/// one whose whole name it is where that settles a tie.
pub open spec fn meant(contacts: Seq<ContactView>, needle: Seq<char>) -> Seq<ContactView> {
    let people = by_id(answering(contacts, needle));
    let exact = exactly(people, needle);
    if people.len() > 1 && exact.len() == 1 {
        exact
    } else {
        people
    }
}

/// The addresses of one record, as they stand: its email addresses, or its
/// numbers.
pub open spec fn addresses(contacts: Seq<ContactView>, id: Seq<char>, mail: bool) -> Seq<
    LabeledView,
>
    decreases contacts.len(),
{
    if contacts.len() == 0 {
        Seq::empty()
    } else {
        let rest = addresses(contacts.drop_last(), id, mail);
        let last = contacts.last();
        if last.id == id && last.handle.contains('@') == mail {
            rest.push(
                LabeledView {
                    value: if mail {
                        text::trim(last.handle)
                    } else {
                        emitted(last.handle)
                    },
                    label: last.label,
                },
            )
        } else {
            rest
        }
    }
}

/// The last entry of a record.
pub open spec fn record(contacts: Seq<ContactView>, id: Seq<char>) -> Option<ContactView>
    decreases contacts.len(),
{
    if contacts.len() == 0 {
        None
    } else if contacts.last().id == id {
        Some(contacts.last())
    } else {
        record(contacts.drop_last(), id)
    }
}

/// Everything held for one record, as the person it is.
pub open spec fn assembled(contacts: Seq<ContactView>, id: Seq<char>) -> PersonView {
    PersonView {
        id,
        name: record(contacts, id)->0.name,
        filed_as: record(contacts, id)->0.filed_as,
        emails: order::stably(addresses(contacts, id, true)),
        phones: order::stably(addresses(contacts, id, false)),
    }
}

/// A record that is held has a last entry.
proof fn a_held_record_has_an_entry(contacts: Seq<ContactView>, id: Seq<char>)
    requires
        has_id(contacts, id),
    ensures
        record(contacts, id) is Some,
    decreases contacts.len(),
{
    if contacts.last().id != id {
        let i = choose|i: int| 0 <= i < contacts.len() && #[trigger] contacts[i].id == id;
        assert(contacts.drop_last()[i].id == id);
        a_held_record_has_an_entry(contacts.drop_last(), id);
    }
}

/// An address to tell a candidate by: the first email address, else the first
/// number, else nothing.
pub open spec fn told_by(person: PersonView) -> Seq<char> {
    if person.emails.len() > 0 {
        person.emails[0].value
    } else if person.phones.len() > 0 {
        person.phones[0].value
    } else {
        Seq::<char>::empty()
    }
}

/// One candidate on a line of their own.
pub open spec fn candidate(contacts: Seq<ContactView>, id: Seq<char>) -> Seq<char> {
    "  "@ + assembled(contacts, id).name + " ("@ + told_by(assembled(contacts, id)) + ")"@
}

/// The lines that name the candidates of an ambiguity, and count those past
/// the twelfth.
pub open spec fn candidates(contacts: Seq<ContactView>, people: Seq<ContactView>) -> Seq<Seq<char>> {
    if people.len() > LISTED {
        Seq::new(LISTED as nat, |i: int| candidate(contacts, people[i].id)).push(
            "  … and "@ + text::decimal(people.len() - LISTED) + " more"@,
        )
    } else {
        Seq::new(people.len(), |i: int| candidate(contacts, people[i].id))
    }
}

/// The error for a term naming more than one person.
pub open spec fn ambiguity(
    contacts: Seq<ContactView>,
    term: Seq<char>,
    people: Seq<ContactView>,
) -> Seq<char> {
    text::decimal(people.len() as int) + " people match "@ + term + ":\n"@ + text::join(
        candidates(contacts, people),
        "\n"@,
    )
}

/// The one person a term means, or why there is not one.
pub open spec fn resolved(index: IndexView, term: Seq<char>) -> Result<PersonView, ErrorView> {
    let people = meant(index.contacts, needle_of(term));
    if index.problems.len() > 0 {
        Err(
            ErrorView::AccessDenied(
                "Contacts could not all be read:\n"@ + text::join(index.problems, "\n"@),
            ),
        )
    } else if let Some(exact) = held(index.contacts, term) {
        Ok(assembled(index.contacts, exact.id))
    } else if needle_of(term).len() == 0 {
        Err(ErrorView::Other("no one to resolve"@))
    } else if people.len() == 0 {
        Err(ErrorView::Other("no one matching "@ + term))
    } else if people.len() == 1 {
        Ok(assembled(index.contacts, people[0].id))
    } else {
        Err(ErrorView::Ambiguous(ambiguity(index.contacts, term, people)))
    }
}

/// One of a conversation's comma-joined handles belongs to somebody who answers
/// to a needle, or is named exactly that.
pub open spec fn any_reaches(
    contacts: Seq<ContactView>,
    handles: Seq<char>,
    needle: Seq<char>,
    exact: bool,
) -> bool {
    exists|i: int|
        0 <= i < text::split(handles, ',').len() && reaches(
            held(contacts, #[trigger] text::split(handles, ',')[i]),
            needle,
            exact,
        )
}

/// Somebody who may not be known answers to a needle, or is named exactly that.
pub open spec fn reaches(contact: Option<ContactView>, needle: Seq<char>, exact: bool) -> bool {
    match contact {
        None => false,
        Some(contact) => if exact {
            contact.named(needle)
        } else {
            contact.answers(needle)
        },
    }
}

impl ContactIndex {
    #[verifier::type_invariant]
    spec fn consistent(self) -> bool {
        agree(self.keys@, self.contacts@)
    }

    /// The index that knows nothing, used whenever `--no-names` is in force.
    pub fn empty() -> (out: ContactIndex)
        ensures
            out@.contacts == Seq::<ContactView>::empty(),
            out@.problems == Seq::<Seq<char>>::empty(),
    {
        let out = ContactIndex { keys: Vec::new(), contacts: Vec::new(), problems: Vec::new() };
        assert(out@.contacts =~= Seq::<ContactView>::empty());
        assert(out@.problems =~= Seq::<Seq<char>>::empty());
        out
    }

    /// The index with one more entry, which replaces the one that has its key.
    /// An entry whose handle has no key is left out.
    pub fn with(self, contact: Contact) -> (out: ContactIndex)
        ensures
            out@.contacts == put(self@.contacts, contact@),
            out@.problems == self@.problems,
    {
        proof {
            use_type_invariant(&self);
        }
        let ContactIndex { keys, contacts, problems } = self;
        let mut keys = keys;
        let mut contacts = contacts;
        enter(&mut keys, &mut contacts, contact, true);
        ContactIndex { keys, contacts, problems }
    }

    /// The index with one more entry, unless one has its key already.
    pub fn offer(self, contact: Contact) -> (out: ContactIndex)
        ensures
            out@.contacts == offered(self@.contacts, contact@),
            out@.problems == self@.problems,
    {
        proof {
            use_type_invariant(&self);
        }
        let ContactIndex { keys, contacts, problems } = self;
        let mut keys = keys;
        let mut contacts = contacts;
        enter(&mut keys, &mut contacts, contact, false);
        ContactIndex { keys, contacts, problems }
    }

    /// An index built from `(handle, record id, name)`.
    ///
    /// Keyed through [`handle_key`] like the loader, so a number written in one
    /// shape and looked up in another behaves the same way. The record id is
    /// spelled out rather than derived from the name, so two different people
    /// can have the same name.
    pub fn for_test<const N: usize>(records: [(&str, &str, &str); N]) -> (out: ContactIndex)
        ensures
            out@.contacts == listed_contacts(records@),
            out@.problems == Seq::<Seq<char>>::empty(),
    {
        let mut out = ContactIndex::empty();
        for i in 0..N
            invariant
                records@.len() == N,
                out@.contacts == listed_contacts(records@.take(i as int)),
                out@.problems == Seq::<Seq<char>>::empty(),
        {
            let (handle, id, name) = records[i];
            proof {
                assert(records@.take(i + 1).drop_last() =~= records@.take(i as int));
                assert(records@.take(i + 1).last() == records@[i as int]);
            }
            out = out.with(
                Contact {
                    id: id.to_owned(),
                    handle: handle.to_owned(),
                    name: name.to_owned(),
                    filed_as: None,
                    label: None,
                },
            );
        }
        assert(records@.take(N as int) =~= records@);
        out
    }

    /// Give a handle's contact a nickname, which takes over as what they are
    /// shown as and pushes the name they had into `filed_as`.
    pub fn nicknamed(self, handle: &str, nickname: &str) -> (out: ContactIndex)
        requires
            held(self@.contacts, handle@) is Some,
        ensures
            out@.contacts == put(
                self@.contacts,
                (ContactView {
                    name: nickname@,
                    filed_as: Some(held(self@.contacts, handle@)->0.name),
                    ..held(self@.contacts, handle@)->0
                }),
            ),
            out@.problems == self@.problems,
    {
        match self.contact(Some(handle)) {
            Some(contact) => {
                let mut renamed = contact.clone();
                renamed.filed_as = Some(contact.name.clone());
                renamed.name = nickname.to_owned();
                self.with(renamed)
            },
            None => self,
        }
    }

    /// Give a handle's entry a label, the way the loader would have read one.
    pub fn labeled(self, handle: &str, label: &str) -> (out: ContactIndex)
        requires
            held(self@.contacts, handle@) is Some,
        ensures
            out@.contacts == put(
                self@.contacts,
                (ContactView { label: Some(label@), ..held(self@.contacts, handle@)->0 }),
            ),
            out@.problems == self@.problems,
    {
        match self.contact(Some(handle)) {
            Some(contact) => {
                let mut renamed = contact.clone();
                renamed.label = Some(label.to_owned());
                self.with(renamed)
            },
            None => self,
        }
    }

    /// The index, and one more reason it may be missing somebody.
    pub fn with_problem(self, problem: &str) -> (out: ContactIndex)
        ensures
            out@.contacts == self@.contacts,
            out@.problems == self@.problems.push(problem@),
    {
        proof {
            use_type_invariant(&self);
        }
        let ContactIndex { keys, contacts, problems } = self;
        let ghost was = problems@;
        let mut problems = problems;
        problems.push(problem.to_owned());
        assert(text::all_of(problems@) =~= text::all_of(was).push(problem@));
        ContactIndex { keys, contacts, problems }
    }

    /// The whole record, for callers that have to tell two people apart rather
    /// than print one.
    pub fn contact(&self, handle: Option<&str>) -> (out: Option<&Contact>)
        ensures
            out is Some <==> handle is Some && held(self@.contacts, handle->0@) is Some,
            out is Some ==> (out->0)@ == held(self@.contacts, handle->0@)->0,
    {
        proof {
            use_type_invariant(self);
        }
        let handle = match handle {
            Some(handle) => handle,
            None => return None,
        };
        match handle_key(handle) {
            None => None,
            Some(wanted) => match place_of(&self.keys, Ghost(self.contacts@), wanted.as_str()) {
                Some(at) => Some(&self.contacts[at]),
                None => None,
            },
        }
    }

    /// The name for a handle, or `None` when it is unknown.
    pub fn lookup(&self, handle: Option<&str>) -> (out: Option<&str>)
        ensures
            out is Some <==> handle is Some && held(self@.contacts, handle->0@) is Some,
            out is Some ==> (out->0)@ == held(self@.contacts, handle->0@)->0.name,
    {
        match self.contact(handle) {
            Some(contact) => Some(contact.name.as_str()),
            None => None,
        }
    }

    /// The entries that answer to a needle, as they stand.
    fn answer_to(&self, needle: &str) -> (out: Vec<&Contact>)
        ensures
            seen(out@) == answering(self@.contacts, needle@),
    {
        let mut out: Vec<&Contact> = Vec::new();
        let ghost all = self@.contacts;
        assert(seen(out@) =~= answering(all.take(0), needle@));
        for i in 0..self.contacts.len()
            invariant
                all == contact_views(self.contacts@),
                seen(out@) == answering(all.take(i as int), needle@),
        {
            let ghost was = out@;
            proof {
                assert(all.take(i + 1).drop_last() =~= all.take(i as int));
                assert(all.take(i + 1).last() == self.contacts@[i as int]@);
            }
            if self.contacts[i].answers_to(needle) {
                out.push(&self.contacts[i]);
                assert(seen(out@) =~= seen(was).push(self.contacts@[i as int]@));
            }
        }
        assert(all.take(all.len() as int) =~= all);
        out
    }

    /// Everyone a lookup term reaches: an address if it is one, otherwise
    /// everyone who answers to it as a name.
    ///
    /// An address given outright wins outright: otherwise a name that happened
    /// to read as part of an address would drag strangers into a question that
    /// had exactly one answer. Ordered by name and then address, so repeating a
    /// lookup repeats its output.
    pub fn find(&self, term: &str) -> (out: Vec<&Contact>)
        ensures
            seen(out@) == found(self@.contacts, term@),
    {
        if let Some(exact) = self.contact(Some(term)) {
            let mut out: Vec<&Contact> = Vec::new();
            out.push(exact);
            assert(seen(out@) =~= seq![exact@]);
            return out;
        }
        let needle = trim_text(term).to_lowercase();
        if needle.as_str().is_empty() {
            let out: Vec<&Contact> = Vec::new();
            assert(seen(out@) =~= Seq::<ContactView>::empty());
            return out;
        }
        let answers = self.answer_to(needle.as_str());
        proof {
            order::sorting_views(answers@, |contact: &Contact| contact@);
        }
        sort(answers)
    }

    /// Everything the index holds for one record, as the person it is.
    fn assemble(&self, id: &str) -> (out: PersonRecord)
        requires
            has_id(self@.contacts, id@),
        ensures
            out@ == assembled(self@.contacts, id@),
    {
        let mut name: String = String::new();
        let mut filed_as: Option<String> = None;
        let mut emails: Vec<LabeledValue> = Vec::new();
        let mut phones: Vec<LabeledValue> = Vec::new();
        let ghost all = self@.contacts;
        proof {
            a_held_record_has_an_entry(all, id@);
            assert(labeled_views(emails@) =~= addresses(all.take(0), id@, true));
            assert(labeled_views(phones@) =~= addresses(all.take(0), id@, false));
        }
        for i in 0..self.contacts.len()
            invariant
                all == contact_views(self.contacts@),
                labeled_views(emails@) == addresses(all.take(i as int), id@, true),
                labeled_views(phones@) == addresses(all.take(i as int), id@, false),
                record(all.take(i as int), id@) is Some ==> name@ == record(
                    all.take(i as int),
                    id@,
                )->0.name && text::maybe(filed_as) == record(all.take(i as int), id@)->0.filed_as,
        {
            let contact = &self.contacts[i];
            proof {
                assert(all.take(i + 1).drop_last() =~= all.take(i as int));
                assert(all.take(i + 1).last() == contact@);
            }
            if same(contact.id.as_str(), id) {
                name = contact.name.clone();
                filed_as = copied(&contact.filed_as);
                let handle = chars_of(contact.handle.as_str());
                if has_char(&handle, '@') {
                    let ghost was = emails@;
                    let entry = LabeledValue {
                        value: trim_text(contact.handle.as_str()),
                        label: copied(&contact.label),
                    };
                    let ghost shown = entry@;
                    emails.push(entry);
                    assert(labeled_views(emails@) =~= labeled_views(was).push(shown));
                } else {
                    let ghost was = phones@;
                    let entry = LabeledValue {
                        value: emit_phone(contact.handle.as_str()),
                        label: copied(&contact.label),
                    };
                    let ghost shown = entry@;
                    phones.push(entry);
                    assert(labeled_views(phones@) =~= labeled_views(was).push(shown));
                }
            }
        }
        proof {
            assert(all.take(all.len() as int) =~= all);
            order::sorting_views(emails@, |value: LabeledValue| value@);
            order::sorting_views(phones@, |value: LabeledValue| value@);
        }
        PersonRecord {
            id: id.to_owned(),
            name,
            filed_as,
            emails: sort(emails),
            phones: sort(phones),
        }
    }
}

/// The index `(handle, record id, name)` triples make, later ones winning.
pub open spec fn listed_contacts(records: Seq<(&str, &str, &str)>) -> Seq<ContactView>
    decreases records.len(),
{
    if records.len() == 0 {
        Seq::empty()
    } else {
        let (handle, id, name) = records.last();
        put(
            listed_contacts(records.drop_last()),
            ContactView { id: id@, handle: handle@, name: name@, filed_as: None, label: None },
        )
    }
}

/// Where an id goes among people who are in the order of their ids.
fn slot_for(people: &Vec<&Contact>, id: &str) -> (at: usize)
    ensures
        at == id_slot(seen(people@), id@),
        at <= people@.len(),
{
    let mut at: usize = people.len();
    let ghost all = seen(people@);
    assert(all.take(at as int) =~= all);
    while at > 0 && is_text_before(id, people[at - 1].id.as_str())
        invariant
            at <= people@.len(),
            all == seen(people@),
            id_slot(all, id@) == id_slot(all.take(at as int), id@),
        decreases at,
    {
        assert(all.take(at as int).drop_last() =~= all.take(at - 1));
        at -= 1;
    }
    at
}

/// Whether one of `people` has this id.
fn id_is_held(people: &Vec<&Contact>, id: &str) -> (yes: bool)
    ensures
        yes == has_id(seen(people@), id@),
{
    for i in 0..people.len()
        invariant
            forall|j: int| 0 <= j < i ==> seen(people@)[j].id != id@,
    {
        if same(people[i].id.as_str(), id) {
            assert(seen(people@)[i as int].id == id@);
            return true;
        }
    }
    false
}

/// One of `people` for each id among them, in the order of the ids.
fn one_each<'a>(people: &Vec<&'a Contact>) -> (out: Vec<&'a Contact>)
    ensures
        seen(out@) == by_id(seen(people@)),
{
    let mut out: Vec<&'a Contact> = Vec::new();
    let ghost all = seen(people@);
    assert(seen(out@) =~= by_id(all.take(0)));
    for i in 0..people.len()
        invariant
            all == seen(people@),
            seen(out@) == by_id(all.take(i as int)),
    {
        let contact: &'a Contact = people[i];
        proof {
            assert(all.take(i + 1).drop_last() =~= all.take(i as int));
            assert(all.take(i + 1).last() == contact@);
        }
        if !id_is_held(&out, contact.id.as_str()) {
            let at: usize = slot_for(&out, contact.id.as_str());
            let ghost was = out@;
            out.insert(at, contact);
            assert(seen(out@) =~= seen(was).insert(at as int, contact@));
        }
    }
    assert(all.take(all.len() as int) =~= all);
    out
}

/// Those of `people` who are named exactly `needle`.
fn exact_among<'a>(people: &Vec<&'a Contact>, needle: &str) -> (out: Vec<&'a Contact>)
    ensures
        seen(out@) == exactly(seen(people@), needle@),
{
    let mut out: Vec<&'a Contact> = Vec::new();
    let ghost all = seen(people@);
    assert(seen(out@) =~= exactly(all.take(0), needle@));
    for i in 0..people.len()
        invariant
            all == seen(people@),
            seen(out@) == exactly(all.take(i as int), needle@),
    {
        let contact: &'a Contact = people[i];
        proof {
            assert(all.take(i + 1).drop_last() =~= all.take(i as int));
            assert(all.take(i + 1).last() == contact@);
        }
        if contact.is_named(needle) {
            let ghost was = out@;
            out.push(contact);
            assert(seen(out@) =~= seen(was).push(contact@));
        }
    }
    assert(all.take(all.len() as int) =~= all);
    out
}

/// Everyone who answers is one of the index's entries.
proof fn answering_are_held(contacts: Seq<ContactView>, needle: Seq<char>)
    ensures
        forall|i: int|
            0 <= i < answering(contacts, needle).len() ==> has_id(
                contacts,
                #[trigger] answering(contacts, needle)[i].id,
            ),
    decreases contacts.len(),
{
    if contacts.len() > 0 {
        let rest = contacts.drop_last();
        answering_are_held(rest, needle);
        assert forall|i: int| 0 <= i < answering(contacts, needle).len() implies has_id(
            contacts,
            #[trigger] answering(contacts, needle)[i].id,
        ) by {
            if i < answering(rest, needle).len() {
                let id = answering(rest, needle)[i].id;
                assert(has_id(rest, id));
                let j = choose|j: int| 0 <= j < rest.len() && #[trigger] rest[j].id == id;
                assert(contacts[j].id == id);
            } else {
                assert(contacts[contacts.len() - 1].id == answering(contacts, needle)[i].id);
            }
        }
    }
}

/// Keeping one each keeps only people who were there.
proof fn one_each_are_among(people: Seq<ContactView>)
    ensures
        forall|i: int|
            0 <= i < by_id(people).len() ==> has_id(people, #[trigger] by_id(people)[i].id),
    decreases people.len(),
{
    if people.len() > 0 {
        let rest = people.drop_last();
        one_each_are_among(rest);
        let kept = by_id(rest);
        slot_of_id_is_within(kept, people.last().id);
        assert forall|i: int| 0 <= i < by_id(people).len() implies has_id(
            people,
            #[trigger] by_id(people)[i].id,
        ) by {
            let id = by_id(people)[i].id;
            if exists|j: int| 0 <= j < kept.len() && #[trigger] kept[j].id == id {
                let j = choose|j: int| 0 <= j < kept.len() && #[trigger] kept[j].id == id;
                assert(has_id(rest, kept[j].id));
                let k = choose|k: int| 0 <= k < rest.len() && #[trigger] rest[k].id == id;
                assert(people[k].id == id);
            } else {
                let at = id_slot(kept, people.last().id) as int;
                if i != at {
                    let j = if i < at { i } else { i - 1 };
                    assert(kept[j].id == id);
                }
                assert(people[people.len() - 1].id == id);
            }
        }
    }
}

proof fn slot_of_id_is_within(people: Seq<ContactView>, id: Seq<char>)
    ensures
        id_slot(people, id) <= people.len(),
    decreases people.len(),
{
    if people.len() > 0 {
        slot_of_id_is_within(people.drop_last(), id);
    }
}

proof fn exact_are_among(people: Seq<ContactView>, needle: Seq<char>)
    ensures
        forall|i: int|
            0 <= i < exactly(people, needle).len() ==> has_id(
                people,
                #[trigger] exactly(people, needle)[i].id,
            ),
    decreases people.len(),
{
    if people.len() > 0 {
        let rest = people.drop_last();
        exact_are_among(rest, needle);
        assert forall|i: int| 0 <= i < exactly(people, needle).len() implies has_id(
            people,
            #[trigger] exactly(people, needle)[i].id,
        ) by {
            if i < exactly(rest, needle).len() {
                let id = exactly(rest, needle)[i].id;
                assert(has_id(rest, id));
                let j = choose|j: int| 0 <= j < rest.len() && #[trigger] rest[j].id == id;
                assert(people[j].id == id);
            } else {
                assert(people[people.len() - 1].id == exactly(people, needle)[i].id);
            }
        }
    }
}

proof fn ids_carry(within: Seq<ContactView>, all: Seq<ContactView>, id: Seq<char>)
    requires
        has_id(within, id),
        forall|i: int| 0 <= i < within.len() ==> has_id(all, #[trigger] within[i].id),
    ensures
        has_id(all, id),
{
    let i = choose|i: int| 0 <= i < within.len() && #[trigger] within[i].id == id;
    assert(has_id(all, within[i].id));
}

/// Everyone a name means is one of the index's records.
proof fn meant_are_held(contacts: Seq<ContactView>, needle: Seq<char>)
    ensures
        forall|i: int|
            0 <= i < meant(contacts, needle).len() ==> has_id(
                contacts,
                #[trigger] meant(contacts, needle)[i].id,
            ),
{
    let answers = answering(contacts, needle);
    let people = by_id(answers);
    let exact = exactly(people, needle);
    answering_are_held(contacts, needle);
    one_each_are_among(answers);
    exact_are_among(people, needle);
    assert forall|i: int| 0 <= i < meant(contacts, needle).len() implies has_id(
        contacts,
        #[trigger] meant(contacts, needle)[i].id,
    ) by {
        let id = meant(contacts, needle)[i].id;
        if people.len() > 1 && exact.len() == 1 {
            assert(has_id(people, exact[i].id));
            ids_carry(people, answers, id);
        } else {
            assert(has_id(answers, people[i].id));
        }
        ids_carry(answers, contacts, id);
    }
}

/// What stands for an error or a person, by their characters.
pub open spec fn outcome(out: Result<PersonRecord, Error>) -> Result<PersonView, ErrorView> {
    match out {
        Ok(person) => Ok(person@),
        Err(error) => Err(error@),
    }
}

impl ContactIndex {
    /// One candidate on a line of their own.
    fn candidate_line(&self, id: &str) -> (out: String)
        requires
            has_id(self@.contacts, id@),
        ensures
            out@ == candidate(self@.contacts, id@),
    {
        let person = self.assemble(id);
        let mut out: String = String::new();
        out.append("  ");
        out.append(person.name.as_str());
        out.append(" (");
        if person.emails.len() > 0 {
            out.append(person.emails[0].value.as_str());
        } else if person.phones.len() > 0 {
            out.append(person.phones[0].value.as_str());
        }
        out.append(")");
        proof {
            let shown = person@;
            assert(out@ =~= "  "@ + shown.name + " ("@ + told_by(shown) + ")"@);
        }
        out
    }

    /// The error for a term naming more than one person: one candidate per
    /// line with an address alongside, which is what a caller disambiguates by.
    fn several(&self, term: &str, people: &Vec<&Contact>) -> (out: Error)
        requires
            forall|i: int|
                0 <= i < people@.len() ==> has_id(
                    self@.contacts,
                    (#[trigger] seen(people@)[i]).id,
                ),
        ensures
            out@ == ErrorView::Ambiguous(ambiguity(self@.contacts, term@, seen(people@))),
    {
        let mut lines: Vec<String> = Vec::new();
        let ghost contacts = self@.contacts;
        let ghost all = seen(people@);
        let shown: usize = if people.len() > LISTED {
            LISTED
        } else {
            people.len()
        };
        for i in 0..shown
            invariant
                shown <= people@.len(),
                contacts == self@.contacts,
                all == seen(people@),
                forall|i: int| 0 <= i < all.len() ==> has_id(contacts, #[trigger] all[i].id),
                lines@.len() == i,
                forall|j: int|
                    0 <= j < i ==> (#[trigger] lines@[j])@ == candidate(contacts, all[j].id),
        {
            assert(all[i as int].id == people@[i as int].id@);
            let line = self.candidate_line(people[i].id.as_str());
            lines.push(line);
        }
        if people.len() > LISTED {
            let ghost was = lines@;
            let mut line: String = String::new();
            line.append("  … and ");
            line.append(count_of(people.len() - LISTED).as_str());
            line.append(" more");
            let ghost said = line@;
            lines.push(line);
            assert(text::all_of(lines@) =~= text::all_of(was).push(said));
        }
        assert(text::all_of(lines@) =~= candidates(contacts, all));
        let mut message: String = count_of(people.len());
        message.append(" people match ");
        message.append(term);
        message.append(":\n");
        message.append(joined(&lines, "\n").as_str());
        Error::Ambiguous(message)
    }

    /// One person from a term, assembled whole — the public resolver.
    ///
    /// An address given outright wins outright, a name matches from the start
    /// of a word, and a whole name settles the tie a fragment created. Several
    /// survivors are an error naming them, never a pick. An identity answer
    /// built on a partial read is not an answer, so an index that could not all
    /// be read refuses.
    pub fn person(&self, term: &str) -> (out: Result<PersonRecord, Error>)
        ensures
            outcome(out) == resolved(self@, term@),
    {
        if self.problems.len() > 0 {
            let mut message: String = "Contacts could not all be read:\n".to_owned();
            message.append(joined(&self.problems, "\n").as_str());
            return Err(Error::AccessDenied(message));
        }
        if let Some(exact) = self.contact(Some(term)) {
            proof {
                let wanted = key(term@)->0;
                place_is_first(self@.contacts, wanted);
                let at = place(self@.contacts, wanted)->0 as int;
                assert(self@.contacts[at].id == exact@.id);
            }
            return Ok(self.assemble(exact.id.as_str()));
        }
        let needle = trim_text(term).to_lowercase();
        if needle.as_str().is_empty() {
            return Err(Error::other("no one to resolve"));
        }
        let answers = self.answer_to(needle.as_str());
        let all = one_each(&answers);
        let exact = exact_among(&all, needle.as_str());
        let people = if all.len() > 1 && exact.len() == 1 {
            exact
        } else {
            all
        };
        proof {
            assert(seen(people@) == meant(self@.contacts, needle@));
            meant_are_held(self@.contacts, needle@);
        }
        if people.len() == 0 {
            let mut message: String = "no one matching ".to_owned();
            message.append(term);
            Err(Error::Other(message))
        } else if people.len() == 1 {
            assert(seen(people@)[0].id == people@[0].id@);
            Ok(self.assemble(people[0].id.as_str()))
        } else {
            Err(self.several(term, &people))
        }
    }

    /// Whether one of a conversation's `handles` — the comma-joined list the
    /// chat queries build — belongs to someone who answers to `needle`, or is
    /// named exactly that.
    fn any(&self, handles: Option<&str>, needle: &str, exact: bool) -> (yes: bool)
        ensures
            yes == (handles is Some && any_reaches(
                self@.contacts,
                handles->0@,
                needle@,
                exact,
            )),
    {
        let list = match handles {
            Some(list) => list,
            None => return false,
        };
        let chars = chars_of(list);
        let each = pieces(&chars, ',');
        let ghost split = text::split(list@, ',');
        for i in 0..each.len()
            invariant
                handles == Some(list),
                split == text::split(list@, ','),
                text::all_of(each@) == split,
                forall|j: int|
                    0 <= j < i ==> !reaches(
                        held(self@.contacts, #[trigger] split[j]),
                        needle@,
                        exact,
                    ),
        {
            assert(split[i as int] == each@[i as int]@);
            if let Some(contact) = self.contact(Some(each[i].as_str())) {
                let yes = if exact {
                    contact.is_named(needle)
                } else {
                    contact.answers_to(needle)
                };
                if yes {
                    assert(reaches(held(self@.contacts, split[i as int]), needle@, exact));
                    return true;
                }
            }
        }
        false
    }

    /// Whether one of a conversation's `handles` belongs to someone who answers
    /// to `needle`. This is what reaches the name a nickname is displayed
    /// instead of.
    pub fn any_answers_to(&self, handles: Option<&str>, needle: &str) -> (yes: bool)
        ensures
            yes == (handles is Some && any_reaches(
                self@.contacts,
                handles->0@,
                needle@,
                false,
            )),
    {
        self.any(handles, needle, false)
    }

    /// The same question asked exactly, for breaking a tie between the
    /// conversations a fragment matched.
    pub fn any_named(&self, handles: Option<&str>, needle: &str) -> (yes: bool)
        ensures
            yes == (handles is Some && any_reaches(self@.contacts, handles->0@, needle@, true)),
    {
        self.any(handles, needle, true)
    }

    /// How many handles the index knows about. It is a map: every entry has a
    /// key, and no two share one.
    pub fn len(&self) -> (n: usize)
        ensures
            n == self@.contacts.len(),
            keyed(self@.contacts),
    {
        proof {
            use_type_invariant(self);
        }
        self.contacts.len()
    }

    /// Every entry, as they stand.
    pub fn entries(&self) -> (out: &Vec<Contact>)
        ensures
            contact_views(out@) == self@.contacts,
    {
        &self.contacts
    }

    pub fn is_empty(&self) -> (yes: bool)
        ensures
            yes == (self@.contacts.len() == 0),
    {
        self.contacts.len() == 0
    }

    /// Why the index may be missing somebody.
    pub fn problems(&self) -> (out: &Vec<String>)
        ensures
            text::all_of(out@) == self@.problems,
    {
        &self.problems
    }
}

/// Each of a conversation's handles by the name it is known under, or as it is.
pub open spec fn named_each(contacts: Seq<ContactView>, handles: Seq<Seq<char>>) -> Seq<Seq<char>> {
    Seq::new(
        handles.len(),
        |i: int|
            match held(contacts, handles[i]) {
                Some(contact) => contact.name,
                None => handles[i],
            },
    )
}

/// Replace handles with names where they are known, keeping order.
pub fn name_handles(contacts: &ContactIndex, handles: Option<&str>) -> (out: Option<String>)
    ensures
        text::maybe(out) == (match handles {
            None => None,
            Some(handles) => Some(
                text::join(named_each(contacts@.contacts, text::split(handles@, ',')), ", "@),
            ),
        }),
{
    let handles = match handles {
        Some(handles) => handles,
        None => return None,
    };
    let chars = chars_of(handles);
    let each = pieces(&chars, ',');
    let ghost split = text::split(handles@, ',');
    let mut names: Vec<String> = Vec::new();
    for i in 0..each.len()
        invariant
            text::all_of(each@) == split,
            names@.len() == i,
            forall|j: int|
                0 <= j < i ==> (#[trigger] names@[j])@ == named_each(contacts@.contacts, split)[j],
    {
        assert(split[i as int] == each@[i as int]@);
        let name: String = match contacts.lookup(Some(each[i].as_str())) {
            Some(name) => name.to_owned(),
            None => each[i].clone(),
        };
        names.push(name);
    }
    assert(text::all_of(names@) =~= named_each(contacts@.contacts, split));
    Some(joined(&names, ", "))
}

/// An address given outright wins outright: whoever else answers to it as a
/// name, the one at that address is the answer.
pub proof fn an_address_wins_outright(index: IndexView, term: Seq<char>)
    requires
        index.problems.len() == 0,
        held(index.contacts, term) is Some,
    ensures
        found(index.contacts, term) == seq![held(index.contacts, term)->0],
        resolved(index, term) == Ok::<PersonView, ErrorView>(
            assembled(index.contacts, held(index.contacts, term)->0.id),
        ),
{
}

/// Two shapes of one address reach the same entry.
pub proof fn a_shape_does_not_matter(contacts: Seq<ContactView>, a: Seq<char>, b: Seq<char>)
    requires
        key(a) == key(b),
    ensures
        held(contacts, a) == held(contacts, b),
{
}

/// Both names reach the person: the one they are shown as and the one they are
/// filed under, each from the start of any of its words.
pub proof fn both_names_reach_a_contact(contact: ContactView, needle: Seq<char>)
    requires
        matching::begins(text::lowercase(contact.name), needle) || (contact.filed_as is Some
            && matching::begins(text::lowercase(contact.filed_as->0), needle)),
    ensures
        contact.answers(needle),
        contact.named(text::lowercase(contact.name)),
        contact.filed_as is Some ==> contact.named(text::lowercase(contact.filed_as->0)),
{
}

/// A resolver that could not read everything answers nobody, whatever is asked.
pub proof fn a_partial_load_never_answers(index: IndexView, term: Seq<char>)
    requires
        index.problems.len() > 0,
    ensures
        resolved(index, term) is Err && resolved(index, term)->Err_0 is AccessDenied,
{
}

/// One each is one each: no two of them share an id, and everybody's id is
/// still there.
pub proof fn people_are_told_apart_by_id(people: Seq<ContactView>)
    ensures
        forall|i: int, j: int|
            0 <= i < j < by_id(people).len() ==> (#[trigger] by_id(people)[i]).id != (
            #[trigger] by_id(people)[j]).id,
        forall|i: int|
            0 <= i < people.len() ==> has_id(by_id(people), (#[trigger] people[i]).id),
    decreases people.len(),
{
    if people.len() > 0 {
        let rest = people.drop_last();
        let last = people.last();
        let kept = by_id(rest);
        let out = by_id(people);
        people_are_told_apart_by_id(rest);
        slot_of_id_is_within(kept, last.id);
        let at = id_slot(kept, last.id) as int;
        if !has_id(kept, last.id) {
            assert forall|i: int, j: int| 0 <= i < j < out.len() implies (#[trigger] out[i]).id != (
            #[trigger] out[j]).id by {
                let a = if i < at { i } else { i - 1 };
                let b = if j < at { j } else { j - 1 };
                if i != at {
                    assert(out[i] == kept[a]);
                }
                if j != at {
                    assert(out[j] == kept[b]);
                }
            }
            assert(out[at].id == last.id);
        }
        assert forall|i: int| 0 <= i < people.len() implies has_id(
            out,
            (#[trigger] people[i]).id,
        ) by {
            let id = people[i].id;
            if i < rest.len() {
                assert(rest[i].id == id);
                assert(has_id(kept, rest[i].id));
                let j = choose|j: int| 0 <= j < kept.len() && #[trigger] kept[j].id == id;
                if has_id(kept, last.id) {
                    assert(out[j].id == id);
                } else if j < at {
                    assert(out[j].id == id);
                } else {
                    assert(out[j + 1].id == id);
                }
            }
        }
    }
}

/// Never a pick: where a name that is no address reaches two different records
/// and is nobody's whole name, the answer is an error.
pub proof fn several_people_are_never_picked_from(
    index: IndexView,
    term: Seq<char>,
    i: int,
    j: int,
)
    requires
        index.problems.len() == 0,
        held(index.contacts, term) is None,
        needle_of(term).len() > 0,
        0 <= i < index.contacts.len(),
        0 <= j < index.contacts.len(),
        index.contacts[i].answers(needle_of(term)),
        index.contacts[j].answers(needle_of(term)),
        index.contacts[i].id != index.contacts[j].id,
        exactly(by_id(answering(index.contacts, needle_of(term))), needle_of(term)).len() != 1,
    ensures
        resolved(index, term) is Err && resolved(index, term)->Err_0 is Ambiguous,
{
    let needle = needle_of(term);
    let answers = answering(index.contacts, needle);
    let people = by_id(answers);
    answers_are_kept(index.contacts, needle, i);
    answers_are_kept(index.contacts, needle, j);
    people_are_told_apart_by_id(answers);
    ids_carry(answers, people, index.contacts[i].id);
    ids_carry(answers, people, index.contacts[j].id);
    let a = choose|a: int| 0 <= a < people.len() && #[trigger] people[a].id == index.contacts[i].id;
    let b = choose|b: int| 0 <= b < people.len() && #[trigger] people[b].id == index.contacts[j].id;
    assert(a != b);
}

proof fn answers_are_kept(contacts: Seq<ContactView>, needle: Seq<char>, i: int)
    requires
        0 <= i < contacts.len(),
        contacts[i].answers(needle),
    ensures
        has_id(answering(contacts, needle), contacts[i].id),
    decreases contacts.len(),
{
    let rest = contacts.drop_last();
    let out = answering(contacts, needle);
    if i < rest.len() {
        answers_are_kept(rest, needle, i);
        let id = contacts[i].id;
        let before = answering(rest, needle);
        let j = choose|j: int| 0 <= j < before.len() && #[trigger] before[j].id == id;
        assert(out[j].id == id);
    } else {
        assert(out[out.len() - 1].id == contacts[i].id);
    }
}

/// One identifier of a record, as it is shown.
pub open spec fn identifier(contact: ContactView) -> LabeledView {
    LabeledView {
        value: if contact.handle.contains('@') {
            text::trim(contact.handle)
        } else {
            emitted(contact.handle)
        },
        label: contact.label,
    }
}

/// An entry is one of a record's identifiers of a kind.
pub open spec fn is_identifier(contact: ContactView, id: Seq<char>, mail: bool) -> bool {
    contact.id == id && contact.handle.contains('@') == mail
}

proof fn addresses_are_theirs(
    contacts: Seq<ContactView>,
    id: Seq<char>,
    mail: bool,
    address: LabeledView,
)
    ensures
        addresses(contacts, id, mail).contains(address) <==> exists|i: int|
            0 <= i < contacts.len() && is_identifier(#[trigger] contacts[i], id, mail)
                && identifier(contacts[i]) == address,
    decreases contacts.len(),
{
    if contacts.len() > 0 {
        let rest = contacts.drop_last();
        let last = contacts.last();
        let before = addresses(rest, id, mail);
        let all = addresses(contacts, id, mail);
        addresses_are_theirs(rest, id, mail, address);
        if all.contains(address) {
            let k = choose|k: int| 0 <= k < all.len() && all[k] == address;
            if k < before.len() {
                assert(before[k] == address);
                let i = choose|i: int|
                    0 <= i < rest.len() && is_identifier(#[trigger] rest[i], id, mail)
                        && identifier(rest[i]) == address;
                assert(contacts[i] == rest[i]);
            } else {
                assert(is_identifier(contacts[contacts.len() - 1], id, mail));
            }
        }
        if exists|i: int|
            0 <= i < contacts.len() && is_identifier(#[trigger] contacts[i], id, mail)
                && identifier(contacts[i]) == address {
            let i = choose|i: int|
                0 <= i < contacts.len() && is_identifier(#[trigger] contacts[i], id, mail)
                    && identifier(contacts[i]) == address;
            if i < rest.len() {
                assert(rest[i] == contacts[i]);
                let k = choose|k: int| 0 <= k < before.len() && before[k] == address;
                assert(all[k] == address);
            } else {
                assert(all[all.len() - 1] == address);
            }
        }
    }
}

/// A person has every identifier of their record and nobody else's: the email
/// addresses among the email addresses, the numbers among the numbers, each list in
/// order. They go by a name that the record has.
pub proof fn a_person_has_what_their_record_holds(
    contacts: Seq<ContactView>,
    id: Seq<char>,
    address: LabeledView,
)
    requires
        has_id(contacts, id),
    ensures
        assembled(contacts, id).id == id,
        assembled(contacts, id).emails.contains(address) <==> exists|i: int|
            0 <= i < contacts.len() && is_identifier(#[trigger] contacts[i], id, true)
                && identifier(contacts[i]) == address,
        assembled(contacts, id).phones.contains(address) <==> exists|i: int|
            0 <= i < contacts.len() && is_identifier(#[trigger] contacts[i], id, false)
                && identifier(contacts[i]) == address,
        forall|i: int, j: int|
            #![trigger assembled(contacts, id).emails[i], assembled(contacts, id).emails[j]]
            0 <= i < j < assembled(contacts, id).emails.len() ==> !order::text_before(
                assembled(contacts, id).emails[j].value,
                assembled(contacts, id).emails[i].value,
            ),
        forall|i: int, j: int|
            #![trigger assembled(contacts, id).phones[i], assembled(contacts, id).phones[j]]
            0 <= i < j < assembled(contacts, id).phones.len() ==> !order::text_before(
                assembled(contacts, id).phones[j].value,
                assembled(contacts, id).phones[i].value,
            ),
        exists|i: int|
            0 <= i < contacts.len() && (#[trigger] contacts[i]).id == id && contacts[i].name
                == assembled(contacts, id).name && contacts[i].filed_as == assembled(
                contacts,
                id,
            ).filed_as,
{
    let mails = addresses(contacts, id, true);
    let numbers = addresses(contacts, id, false);
    addresses_are_theirs(contacts, id, true, address);
    addresses_are_theirs(contacts, id, false, address);
    order::sorting_keeps_each(mails, address);
    order::sorting_keeps_each(numbers, address);
    assert(order::weak_order::<LabeledView>()) by {
        assert forall|a: LabeledView, b: LabeledView| #[trigger] a.before(&b) implies !b.before(
            &a,
        ) by {
            order::text_order_is_total(a.value, b.value);
        }
        assert forall|a: LabeledView, b: LabeledView, c: LabeledView|
            !(#[trigger] b.before(&a)) && !(#[trigger] c.before(&b)) implies !c.before(&a) by {
            order::text_order_carries(a.value, b.value, c.value);
        }
    }
    order::sorting_orders(mails);
    order::sorting_orders(numbers);
    assert forall|i: int, j: int|
        #![trigger assembled(contacts, id).emails[i], assembled(contacts, id).emails[j]]
        0 <= i < j < assembled(contacts, id).emails.len() implies !order::text_before(
        assembled(contacts, id).emails[j].value,
        assembled(contacts, id).emails[i].value,
    ) by {
        assert(!order::stably(mails)[j].before(&order::stably(mails)[i]));
    }
    assert forall|i: int, j: int|
        #![trigger assembled(contacts, id).phones[i], assembled(contacts, id).phones[j]]
        0 <= i < j < assembled(contacts, id).phones.len() implies !order::text_before(
        assembled(contacts, id).phones[j].value,
        assembled(contacts, id).phones[i].value,
    ) by {
        assert(!order::stably(numbers)[j].before(&order::stably(numbers)[i]));
    }
    a_record_is_one_of_the_entries(contacts, id);
}

proof fn a_record_is_one_of_the_entries(contacts: Seq<ContactView>, id: Seq<char>)
    requires
        has_id(contacts, id),
    ensures
        record(contacts, id) is Some,
        record(contacts, id)->0.id == id,
        exists|i: int| 0 <= i < contacts.len() && #[trigger] contacts[i] == record(contacts, id)->0,
    decreases contacts.len(),
{
    if contacts.last().id != id {
        let rest = contacts.drop_last();
        let i = choose|i: int| 0 <= i < contacts.len() && #[trigger] contacts[i].id == id;
        assert(rest[i].id == id);
        a_record_is_one_of_the_entries(rest, id);
        let j = choose|j: int| 0 <= j < rest.len() && #[trigger] rest[j] == record(rest, id)->0;
        assert(contacts[j] == rest[j]);
    } else {
        assert(contacts[contacts.len() - 1] == record(contacts, id)->0);
    }
}

proof fn answering_are_those_who_answer(
    contacts: Seq<ContactView>,
    needle: Seq<char>,
    contact: ContactView,
)
    ensures
        answering(contacts, needle).contains(contact) <==> contacts.contains(contact)
            && contact.answers(needle),
    decreases contacts.len(),
{
    if contacts.len() > 0 {
        let rest = contacts.drop_last();
        let before = answering(rest, needle);
        let all = answering(contacts, needle);
        answering_are_those_who_answer(rest, needle, contact);
        if all.contains(contact) {
            let k = choose|k: int| 0 <= k < all.len() && all[k] == contact;
            if k < before.len() {
                assert(before[k] == contact);
                let i = choose|i: int| 0 <= i < rest.len() && rest[i] == contact;
                assert(contacts[i] == contact);
            } else {
                assert(contacts[contacts.len() - 1] == contact);
            }
        }
        if contacts.contains(contact) && contact.answers(needle) {
            let i = choose|i: int| 0 <= i < contacts.len() && contacts[i] == contact;
            if i < rest.len() {
                assert(rest[i] == contact);
                let k = choose|k: int| 0 <= k < before.len() && before[k] == contact;
                assert(all[k] == contact);
            } else {
                assert(all[all.len() - 1] == contact);
            }
        }
    }
}

/// A term that is nobody's address finds everybody who answers to it and nobody else;
/// one with nothing in it finds nobody.
pub proof fn a_term_finds_who_answers_to_it(
    contacts: Seq<ContactView>,
    term: Seq<char>,
    contact: ContactView,
)
    requires
        held(contacts, term) is None,
    ensures
        needle_of(term).len() > 0 ==> (found(contacts, term).contains(contact)
            <==> contacts.contains(contact) && contact.answers(needle_of(term))),
        needle_of(term).len() == 0 ==> found(contacts, term).len() == 0,
{
    let needle = needle_of(term);
    answering_are_those_who_answer(contacts, needle, contact);
    order::sorting_keeps_each(answering(contacts, needle), contact);
}

/// One of several people has this id and answers to a needle.
pub open spec fn answers_under(
    contacts: Seq<ContactView>,
    id: Seq<char>,
    needle: Seq<char>,
) -> bool {
    exists|i: int|
        0 <= i < contacts.len() && (#[trigger] contacts[i]).id == id && contacts[i].answers(needle)
}

proof fn kept_are_entries(people: Seq<ContactView>, i: int)
    requires
        0 <= i < by_id(people).len(),
    ensures
        people.contains(by_id(people)[i]),
    decreases people.len(),
{
    if people.len() > 0 {
        let rest = people.drop_last();
        let kept = by_id(rest);
        let one = by_id(people)[i];
        slot_of_id_is_within(kept, people.last().id);
        let at = id_slot(kept, people.last().id) as int;
        if !has_id(kept, people.last().id) && i == at {
            assert(people[people.len() - 1] == one);
        } else {
            let j = if has_id(kept, people.last().id) || i < at { i } else { i - 1 };
            assert(kept[j] == one);
            kept_are_entries(rest, j);
            let k = choose|k: int| 0 <= k < rest.len() && rest[k] == one;
            assert(people[k] == one);
        }
    }
}

proof fn exact_are_people(people: Seq<ContactView>, needle: Seq<char>, contact: ContactView)
    ensures
        exactly(people, needle).contains(contact) <==> people.contains(contact) && contact.named(
            needle,
        ),
    decreases people.len(),
{
    if people.len() > 0 {
        let rest = people.drop_last();
        let before = exactly(rest, needle);
        let all = exactly(people, needle);
        exact_are_people(rest, needle, contact);
        if all.contains(contact) {
            let k = choose|k: int| 0 <= k < all.len() && all[k] == contact;
            if k < before.len() {
                assert(before[k] == contact);
                let i = choose|i: int| 0 <= i < rest.len() && rest[i] == contact;
                assert(people[i] == contact);
            } else {
                assert(people[people.len() - 1] == contact);
            }
        }
        if people.contains(contact) && contact.named(needle) {
            let i = choose|i: int| 0 <= i < people.len() && people[i] == contact;
            if i < rest.len() {
                assert(rest[i] == contact);
                let k = choose|k: int| 0 <= k < before.len() && before[k] == contact;
                assert(all[k] == contact);
            } else {
                assert(all[all.len() - 1] == contact);
            }
        }
    }
}

/// Everybody a name means answers to it.
proof fn meant_answer(contacts: Seq<ContactView>, needle: Seq<char>, i: int)
    requires
        0 <= i < meant(contacts, needle).len(),
    ensures
        contacts.contains(meant(contacts, needle)[i]),
        meant(contacts, needle)[i].answers(needle),
{
    let answers = answering(contacts, needle);
    let people = by_id(answers);
    let exact = exactly(people, needle);
    let one = meant(contacts, needle)[i];
    if people.len() > 1 && exact.len() == 1 {
        assert(exact.contains(one));
        exact_are_people(people, needle, one);
    }
    let k = choose|k: int| 0 <= k < people.len() && people[k] == one;
    assert(people.contains(one));
    kept_are_entries(answers, k);
    answering_are_those_who_answer(contacts, needle, one);
}

/// Whoever a term is resolved to is at that address, or answers to it as a name.
pub proof fn who_is_resolved_is_who_was_meant(index: IndexView, term: Seq<char>)
    requires
        resolved(index, term) is Ok,
    ensures
        resolved(index, term)->Ok_0 == assembled(index.contacts, resolved(index, term)->Ok_0.id),
        match held(index.contacts, term) {
            Some(exact) => resolved(index, term)->Ok_0.id == exact.id,
            None => answers_under(
                index.contacts,
                resolved(index, term)->Ok_0.id,
                needle_of(term),
            ),
        },
{
    let needle = needle_of(term);
    if held(index.contacts, term) is None {
        meant_answer(index.contacts, needle, 0);
        let one = meant(index.contacts, needle)[0];
        let k = choose|k: int| 0 <= k < index.contacts.len() && index.contacts[k] == one;
        assert(index.contacts[k].id == one.id);
    }
}

/// A name that only one person answers to is resolved to them.
pub proof fn the_only_one_who_answers_is_resolved(index: IndexView, term: Seq<char>, id: Seq<char>)
    requires
        index.problems.len() == 0,
        held(index.contacts, term) is None,
        needle_of(term).len() > 0,
        answers_under(index.contacts, id, needle_of(term)),
        forall|i: int|
            0 <= i < index.contacts.len() && (#[trigger] index.contacts[i]).answers(needle_of(term))
                ==> index.contacts[i].id == id,
    ensures
        resolved(index, term) is Ok,
        resolved(index, term)->Ok_0.id == id,
{
    let needle = needle_of(term);
    let contacts = index.contacts;
    let answers = answering(contacts, needle);
    let people = by_id(answers);
    let i = choose|i: int|
        0 <= i < contacts.len() && (#[trigger] contacts[i]).id == id && contacts[i].answers(needle);
    answers_are_kept(contacts, needle, i);
    people_are_told_apart_by_id(answers);
    ids_carry(answers, people, id);
    assert forall|k: int| 0 <= k < people.len() implies (#[trigger] people[k]).id == id by {
        kept_are_entries(answers, k);
        answering_are_those_who_answer(contacts, needle, people[k]);
        let j = choose|j: int| 0 <= j < contacts.len() && contacts[j] == people[k];
        assert(contacts[j].answers(needle));
    }
    if people.len() > 1 {
        assert(people[0].id != people[1].id);
    }
}

/// A name nobody answers to is an error that says which name it was.
pub proof fn nobody_is_made_up(index: IndexView, term: Seq<char>)
    requires
        index.problems.len() == 0,
        held(index.contacts, term) is None,
        needle_of(term).len() > 0,
        forall|i: int|
            0 <= i < index.contacts.len() ==> !(#[trigger] index.contacts[i]).answers(
                needle_of(term),
            ),
    ensures
        resolved(index, term) matches Err(ErrorView::Other(words)) && text::contains(words, term),
{
    let needle = needle_of(term);
    if meant(index.contacts, needle).len() > 0 {
        meant_answer(index.contacts, needle, 0);
        let one = meant(index.contacts, needle)[0];
        let k = choose|k: int| 0 <= k < index.contacts.len() && index.contacts[k] == one;
        assert(!index.contacts[k].answers(needle));
    }
    let words = "no one matching "@ + term;
    let at = "no one matching "@.len() as int;
    assert(words.subrange(at, at + term.len()) =~= term);
    assert(text::occurs_at(words, term, at));
}

/// An address to tell somebody by is one of theirs, and an email address where they
/// have one.
pub proof fn a_candidate_is_told_by_an_address_of_theirs(person: PersonView)
    ensures
        person.emails.len() > 0 ==> exists|i: int|
            0 <= i < person.emails.len() && (#[trigger] person.emails[i]).value == told_by(person),
        person.emails.len() == 0 && person.phones.len() > 0 ==> exists|i: int|
            0 <= i < person.phones.len() && (#[trigger] person.phones[i]).value == told_by(person),
{
    if person.emails.len() > 0 {
        assert(person.emails[0].value == told_by(person));
    } else if person.phones.len() > 0 {
        assert(person.phones[0].value == told_by(person));
    }
}

/// An ambiguity says how many people there are and names each of them, with an address
/// to tell them by, as long as there are no more than a dozen; past that it names a
/// dozen and counts the rest.
pub proof fn an_ambiguity_names_everybody(
    contacts: Seq<ContactView>,
    term: Seq<char>,
    people: Seq<ContactView>,
    i: int,
)
    requires
        0 <= i < people.len(),
    ensures
        (text::decimal(people.len() as int) + " people match "@ + term).is_prefix_of(
            ambiguity(contacts, term, people),
        ),
        i < 12 ==> text::contains(
            ambiguity(contacts, term, people),
            assembled(contacts, people[i].id).name + " ("@ + told_by(
                assembled(contacts, people[i].id),
            ) + ")"@,
        ),
        people.len() > 12 ==> text::contains(
            ambiguity(contacts, term, people),
            "and "@ + text::decimal(people.len() - 12) + " more"@,
        ),
{
    let all = ambiguity(contacts, term, people);
    let head = text::decimal(people.len() as int) + " people match "@ + term;
    let lines = candidates(contacts, people);
    let listed = text::join(lines, "\n"@);
    assert(all =~= head + (":\n"@ + listed));
    assert(all.take(head.len() as int) =~= head);
    let from = (head + ":\n"@).len() as int;
    assert(all.subrange(from, from + listed.len()) =~= listed);
    assert(text::occurs_at(all, listed, from));
    if i < 12 {
        let name = assembled(contacts, people[i].id).name;
        let by = told_by(assembled(contacts, people[i].id));
        let inner = name + " ("@ + by + ")"@;
        assert(lines[i] =~= "  "@ + inner);
        let at = "  "@.len() as int;
        assert(lines[i].subrange(at, at + inner.len()) =~= inner);
        assert(text::occurs_at(lines[i], inner, at));
        text::a_part_is_held(lines, "\n"@, i);
        text::holding_carries(all, listed, lines[i]);
        text::holding_carries(all, lines[i], inner);
    }
    if people.len() > 12 {
        reveal_strlit("  … and ");
        reveal_strlit("and ");
        let inner = "and "@ + text::decimal(people.len() - 12) + " more"@;
        let line = lines[12];
        assert(line.subrange(4, 4 + inner.len() as int) =~= inner);
        assert(text::occurs_at(line, inner, 4));
        text::a_part_is_held(lines, "\n"@, 12);
        text::holding_carries(all, listed, line);
        text::holding_carries(all, line, inner);
    }
}

/// An entry that is put in is the one its address reaches, whatever was there; one that
/// is offered gives way to what was there. Either way every other address reaches what
/// it reached.
pub proof fn an_entry_is_reached_by_its_address(
    contacts: Seq<ContactView>,
    contact: ContactView,
    handle: Seq<char>,
)
    requires
        key(contact.handle) is Some,
    ensures
        key(handle) == key(contact.handle) ==> held(put(contacts, contact), handle) == Some(contact),
        key(handle) == key(contact.handle) ==> held(offered(contacts, contact), handle) == (
        match held(contacts, handle) {
            Some(there) => Some(there),
            None => Some(contact),
        }),
        key(handle) != key(contact.handle) ==> held(put(contacts, contact), handle) == held(
            contacts,
            handle,
        ),
        key(handle) != key(contact.handle) ==> held(offered(contacts, contact), handle) == held(
            contacts,
            handle,
        ),
{
    let wanted = key(contact.handle)->0;
    let after = put(contacts, contact);
    place_is_first(contacts, wanted);
    place_is_first(after, wanted);
    if place(contacts, wanted) is None {
        assert(contacts.push(contact).drop_last() =~= contacts);
        assert(contacts.push(contact).last() == contact);
    } else {
        let at = place(contacts, wanted)->0 as int;
        assert(key(after[at].handle) == Some(wanted));
        let found = place(after, wanted)->0 as int;
        if found < at {
            assert(key(contacts[found].handle) != Some(wanted));
            assert(after[found] == contacts[found]);
        }
        if at < found {
            assert(key(after[at].handle) != Some(wanted));
        }
    }
    if key(handle) is Some && key(handle) != Some(wanted) {
        let other = key(handle)->0;
        place_is_first(contacts, other);
        if place(contacts, wanted) is Some {
            let at = place(contacts, wanted)->0 as int;
            place_is_first(after, other);
            match place(contacts, other) {
                Some(there) => {
                    assert(after[there as int] == contacts[there as int]);
                    assert(place(after, other) is Some);
                    let now = place(after, other)->0 as int;
                    if now < there {
                        assert(key(contacts[now].handle) != Some(other));
                        assert(now != at);
                        assert(after[now] == contacts[now]);
                    }
                    if there < now {
                        assert(key(after[there as int].handle) != Some(other));
                    }
                },
                None => {
                    if place(after, other) is Some {
                        let now = place(after, other)->0 as int;
                        assert(now != at);
                        assert(after[now] == contacts[now]);
                        assert(key(contacts[now].handle) != Some(other));
                    }
                },
            }
        }
    }
}

/// Handles keep their number and their order when names are put in their places, and
/// nothing but the name changes.
pub proof fn a_known_handle_is_shown_by_its_name(
    contacts: Seq<ContactView>,
    handles: Seq<Seq<char>>,
    i: int,
)
    requires
        0 <= i < handles.len(),
    ensures
        named_each(contacts, handles).len() == handles.len(),
        held(contacts, handles[i]) is None ==> named_each(contacts, handles)[i] == handles[i],
        held(contacts, handles[i]) matches Some(contact) ==> named_each(contacts, handles)[i]
            == contact.name,
        named_each(Seq::empty(), handles)[i] == handles[i],
{
}

/// What stands before a number of ten digits does not matter: with a country code, in
/// whatever shape, or without one it is the same number.
pub proof fn a_country_code_does_not_matter(code: Seq<char>, number: Seq<char>)
    requires
        !code.contains('@'),
        number.len() == 10,
        forall|i: int| 0 <= i < number.len() ==> text::ascii_digit(#[trigger] number[i]),
    ensures
        key(code + number) == Some(number),
        key(number) == Some(number),
{
    let whole = code + number;
    digits_stay(number);
    digits_in_parts(code, number);
    assert(!number.contains('@')) by {
        if number.contains('@') {
            let i = choose|i: int| 0 <= i < number.len() && number[i] == '@';
            assert(text::ascii_digit(number[i]));
        }
    }
    assert(!whole.contains('@')) by {
        if whole.contains('@') {
            let i = choose|i: int| 0 <= i < whole.len() && whole[i] == '@';
            if i < code.len() {
                assert(code[i] == '@');
            } else {
                assert(number[i - code.len()] == '@');
            }
        }
    }
    what_has_a_key(whole);
    what_has_a_key(number);
    let digits = digits_in(whole);
    assert(digits == digits_in(code) + number);
    if digits.len() > MATCH_DIGITS {
        assert(digits.skip(digits.len() - MATCH_DIGITS) =~= number);
    } else {
        assert(digits =~= number);
    }
}

proof fn nobody_is_exactly(people: Seq<ContactView>, needle: Seq<char>)
    requires
        forall|j: int| 0 <= j < people.len() ==> !(#[trigger] people[j]).named(needle),
    ensures
        exactly(people, needle).len() == 0,
    decreases people.len(),
{
    if people.len() > 0 {
        let rest = people.drop_last();
        assert(people[people.len() - 1] == people.last());
        assert forall|j: int| 0 <= j < rest.len() implies !(#[trigger] rest[j]).named(needle) by {
            assert(people[j] == rest[j]);
        }
        nobody_is_exactly(rest, needle);
    }
}

proof fn only_one_is_exactly(people: Seq<ContactView>, needle: Seq<char>, k: int)
    requires
        0 <= k < people.len(),
        forall|j: int| 0 <= j < people.len() ==> ((#[trigger] people[j]).named(needle) <==> j == k),
    ensures
        exactly(people, needle) == seq![people[k]],
    decreases people.len(),
{
    let rest = people.drop_last();
    assert(people[people.len() - 1] == people.last());
    assert forall|j: int| 0 <= j < rest.len() implies ((#[trigger] rest[j]).named(needle) <==> j
        == k) by {
        assert(people[j] == rest[j]);
    }
    if k == people.len() - 1 {
        nobody_is_exactly(rest, needle);
        assert(exactly(people, needle) =~= seq![people[k]]);
    } else {
        only_one_is_exactly(rest, needle, k);
        assert(rest[k] == people[k]);
    }
}

/// Of several people who answer to a name, the only one whose whole name it is is the one
/// who is meant.
pub proof fn a_whole_name_settles_a_tie(index: IndexView, term: Seq<char>, k: int)
    requires
        index.problems.len() == 0,
        held(index.contacts, term) is None,
        needle_of(term).len() > 0,
        0 <= k < by_id(answering(index.contacts, needle_of(term))).len(),
        forall|j: int|
            0 <= j < by_id(answering(index.contacts, needle_of(term))).len() ==> ((
            #[trigger] by_id(answering(index.contacts, needle_of(term)))[j]).named(needle_of(term))
                <==> j == k),
    ensures
        resolved(index, term) matches Ok(person) && person.id == by_id(
            answering(index.contacts, needle_of(term)),
        )[k].id,
{
    only_one_is_exactly(by_id(answering(index.contacts, needle_of(term))), needle_of(term), k);
}

proof fn separators_are_no_digits(s: Seq<char>)
    ensures
        digits_in(without_separators(s)) == digits_in(s),
        forall|i: int|
            0 <= i < without_separators(s).len() ==> !separator(#[trigger] without_separators(s)[i]),
        s.len() > 0 && !separator(s[0]) ==> without_separators(s).len() > 0
            && without_separators(s)[0] == s[0],
    decreases s.len(),
{
    if s.len() > 0 {
        let rest = s.drop_last();
        separators_are_no_digits(rest);
        if !separator(s.last()) {
            assert(without_separators(s).drop_last() =~= without_separators(rest));
        }
        if rest.len() > 0 {
            assert(rest[0] == s[0]);
        }
    }
}

/// A number that is written out keeps its digits and the plus it opens with, and where it
/// is nothing but digits and separators no separator is left.
pub proof fn a_written_number_keeps_its_digits(stored: Seq<char>)
    ensures
        digits_in(emitted(stored)) == digits_in(text::trim(stored)),
        text::trim(stored).len() > 0 && text::trim(stored)[0] == '+' ==> emitted(stored).len() > 0
            && emitted(stored)[0] == '+',
        text::all_digits(without_separators(text::trim(stored))) ==> forall|i: int|
            0 <= i < emitted(stored).len() ==> text::ascii_digit(#[trigger] emitted(stored)[i]),
{
    let trimmed = text::trim(stored);
    separators_are_no_digits(trimmed);
    let stripped = without_separators(trimmed);
    if text::all_digits(stripped) {
        assert(text::ascii_digit(stripped[0]));
        assert(after_plus(stripped) == stripped);
    }
}

/// Whoever a term finds is found in the order of their names, and of one name in the order
/// of their addresses.
pub proof fn who_is_found_is_in_order(contacts: Seq<ContactView>, term: Seq<char>, i: int, j: int)
    requires
        0 <= i < j < found(contacts, term).len(),
    ensures
        !order::text_before(found(contacts, term)[j].name, found(contacts, term)[i].name),
        found(contacts, term)[i].name == found(contacts, term)[j].name ==> !order::text_before(
            found(contacts, term)[j].handle,
            found(contacts, term)[i].handle,
        ),
{
    let all = answering(contacts, needle_of(term));
    assert(order::weak_order::<ContactView>()) by {
        assert forall|a: ContactView, b: ContactView| #[trigger] a.before(&b) implies !b.before(
            &a,
        ) by {
            order::text_order_is_total(a.name, b.name);
            order::text_order_is_total(a.handle, b.handle);
        }
        assert forall|a: ContactView, b: ContactView, c: ContactView|
            !(#[trigger] b.before(&a)) && !(#[trigger] c.before(&b)) implies !c.before(&a) by {
            order::text_order_is_total(a.name, b.name);
            order::text_order_is_total(b.name, c.name);
            order::text_order_is_total(a.name, c.name);
            order::text_order_carries(a.name, b.name, c.name);
            order::text_order_carries(a.handle, b.handle, c.handle);
        }
    }
    order::sorting_orders(all);
    assert(!order::stably(all)[j].before(&order::stably(all)[i]));
}

proof fn an_id_goes_where_it_belongs(people: Seq<ContactView>, id: Seq<char>)
    ensures
        id_slot(people, id) <= people.len(),
        forall|i: int|
            id_slot(people, id) <= i < people.len() ==> order::text_before(
                id,
                (#[trigger] people[i]).id,
            ),
        id_slot(people, id) > 0 ==> !order::text_before(id, people[id_slot(people, id) - 1].id),
    decreases people.len(),
{
    if people.len() > 0 && order::text_before(id, people.last().id) {
        let rest = people.drop_last();
        an_id_goes_where_it_belongs(rest, id);
        assert forall|i: int| id_slot(people, id) <= i < people.len() implies order::text_before(
            id,
            (#[trigger] people[i]).id,
        ) by {
            if i < rest.len() {
                assert(rest[i] == people[i]);
            }
        }
    }
}

/// One each, in the order of their records.
pub proof fn people_stand_in_the_order_of_their_ids(people: Seq<ContactView>)
    ensures
        forall|i: int, j: int|
            #![trigger by_id(people)[i], by_id(people)[j]]
            0 <= i < j < by_id(people).len() ==> order::text_before(
                by_id(people)[i].id,
                by_id(people)[j].id,
            ),
    decreases people.len(),
{
    if people.len() > 0 {
        let kept = by_id(people.drop_last());
        let last = people.last();
        let out = by_id(people);
        people_stand_in_the_order_of_their_ids(people.drop_last());
        if !has_id(kept, last.id) {
            an_id_goes_where_it_belongs(kept, last.id);
            let at = id_slot(kept, last.id) as int;
            assert forall|i: int, j: int|
                #![trigger out[i], out[j]]
                0 <= i < j < out.len() implies order::text_before(out[i].id, out[j].id) by {
                let a = if i < at { i } else { i - 1 };
                let b = if j < at { j } else { j - 1 };
                if i == at {
                    assert(out[j] == kept[b]);
                } else if j == at {
                    assert(out[i] == kept[a]);
                    order::text_order_is_total(kept[at - 1].id, last.id);
                    assert(kept[at - 1].id != last.id);
                    if a < at - 1 {
                        assert(order::text_before(kept[a].id, kept[at - 1].id));
                        order::text_order_is_strict(kept[a].id, kept[at - 1].id, last.id);
                    }
                } else {
                    assert(out[i] == kept[a]);
                    assert(out[j] == kept[b]);
                }
            }
        }
    }
}

} // verus!
