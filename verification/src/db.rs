//! What the Messages database holds, and what one row of it says.
use vstd::prelude::*;

use crate::apple::{self, from_apple_date, message_body};
use crate::contacts::{self, ContactIndex, ContactView, name_handles};
use crate::text::{self, borrowed, chars_of, decimal_of, digits_of, joined, opens_with};

verus! {

/// A message, as a reader or a consumer of `--json` sees it.
///
/// Dates are milliseconds since the Unix epoch.
#[derive(Debug, Clone)]
pub struct Message {
    pub rowid: i64,
    pub guid: String,
    pub is_from_me: bool,
    pub body: Option<String>,
    pub associated_message_type: i64,
    pub is_tapback: bool,
    pub date: Option<i64>,
    pub handle: Option<String>,
    pub contact_name: Option<String>,
    pub sender: String,
    pub chat_id: i64,
    pub chat_name: Option<String>,
    pub service: Option<String>,
    pub attachments: Vec<Attachment>,
    /// Set when this message is an inline reply.
    pub reply_to: Option<ReplyTo>,
    /// The reactions on this message, oldest first, removals already cancelled.
    pub tapbacks: Vec<Tapback>,
    /// Whether this is a search hit, as against context shown around one.
    pub matched: bool,
    /// Which run of adjacent messages this belongs to, when context was asked
    /// for.
    pub group: Option<i64>,
}

/// A message is a hit unless something says otherwise.
pub fn matched_unless_said() -> (out: bool)
    ensures
        out,
{
    true
}

/// One file attached to a message.
///
/// Deliberately not the path on disk, which would disclose the layout of the
/// user's home directory; `name` is what the sender called it.
#[derive(Debug, Clone)]
pub struct Attachment {
    pub rowid: i64,
    pub name: Option<String>,
    pub mime_type: Option<String>,
    /// Apple's own type identifier, kept beside `mime_type` rather than folded
    /// into it. A UTI is not a MIME type.
    pub uti: Option<String>,
    pub total_bytes: i64,
    pub is_sticker: bool,
    /// False when Messages kept the row but not the file — never downloaded, or
    /// purged since.
    pub is_downloaded: bool,
}

/// One reaction on a message.
#[derive(Debug, Clone)]
pub struct Tapback {
    pub associated_message_type: i64,
    pub symbol: String,
    pub date: Option<i64>,
    pub is_from_me: bool,
    pub handle: Option<String>,
    pub contact_name: Option<String>,
}

/// The message a reply is answering: enough to recognise which message is
/// meant without reprinting a conversation inside itself.
#[derive(Debug, Clone)]
pub struct ReplyTo {
    pub rowid: i64,
    pub sender: String,
    pub excerpt: Option<String>,
}

/// One thread of Messages.
#[derive(Debug, Clone)]
pub struct Chat {
    pub rowid: i64,
    pub guid: String,
    pub identifier: String,
    pub display_name: Option<String>,
    pub handles: Option<String>,
    pub named_handles: Option<String>,
    pub is_filtered: bool,
    pub member_count: i64,
    pub is_group: bool,
    pub last_date: Option<i64>,
    pub message_count: i64,
    pub name: String,
}

/// A column as text, with the empty string read as absent.
pub open spec fn column(raw: Option<String>) -> Option<Seq<char>> {
    match raw {
        Some(text) => if text@.len() > 0 {
            Some(text@)
        } else {
            None
        },
        None => None,
    }
}

/// A column as text, with the empty string read as absent.
pub fn text_column(raw: Option<String>) -> (out: Option<String>)
    ensures
        text::maybe(out) == column(raw),
        out is Some ==> out == raw,
{
    match raw {
        Some(text) => if text.as_str().is_empty() {
            None
        } else {
            Some(text)
        },
        None => None,
    }
}

/// A column as a number, with an absent one read as zero.
pub open spec fn counted(raw: Option<i64>) -> i64 {
    match raw {
        Some(n) => n,
        None => 0,
    }
}

/// A column as a number, with an absent one read as zero.
pub fn number(raw: Option<i64>) -> (out: i64)
    ensures
        out == counted(raw),
{
    match raw {
        Some(n) => n,
        None => 0,
    }
}

/// Who a message is from, to a reader: me, the name their address is known
/// under, the address itself, or nobody that can be named.
pub open spec fn sender(
    is_from_me: bool,
    handle: Option<Seq<char>>,
    contacts: Seq<ContactView>,
) -> Seq<char> {
    if is_from_me {
        "me"@
    } else {
        match handle {
            None => "unknown"@,
            Some(handle) => match contacts::held(contacts, handle) {
                Some(contact) => contact.name,
                None => handle,
            },
        }
    }
}

/// The name an address is known under.
pub open spec fn known_as(handle: Option<Seq<char>>, contacts: Seq<ContactView>) -> Option<
    Seq<char>,
> {
    match handle {
        None => None,
        Some(handle) => match contacts::held(contacts, handle) {
            Some(contact) => Some(contact.name),
            None => None,
        },
    }
}

/// The name an address is known under, owned.
pub fn name_of(handle: Option<&str>, contacts: &ContactIndex) -> (out: Option<String>)
    ensures
        text::maybe(out) == known_as(text::maybe_str(handle), contacts@.contacts),
{
    match contacts.lookup(handle) {
        Some(name) => Some(name.to_owned()),
        None => None,
    }
}

/// Who a message is from, to a reader.
pub fn sender_of(is_from_me: bool, handle: Option<&str>, contacts: &ContactIndex) -> (out: String)
    ensures
        out@ == sender(is_from_me, text::maybe_str(handle), contacts@.contacts),
{
    if is_from_me {
        return "me".to_owned();
    }
    match handle {
        None => "unknown".to_owned(),
        Some(handle) => match contacts.lookup(Some(handle)) {
            Some(name) => name.to_owned(),
            None => handle.to_owned(),
        },
    }
}

/// The bytes of a blob column.
pub open spec fn blob(raw: Option<Vec<u8>>) -> Option<Seq<u8>> {
    match raw {
        Some(bytes) => Some(bytes@),
        None => None,
    }
}

/// What a message says: its text column, or else the body archived beside it.
pub open spec fn body(text: Option<String>, archive: Option<Vec<u8>>) -> Option<Seq<char>> {
    match column(text) {
        Some(text) => Some(text),
        None => apple::archived_text(blob(archive)),
    }
}

/// What a message says.
pub fn body_of(text: Option<String>, archive: &Option<Vec<u8>>) -> (out: Option<String>)
    ensures
        text::maybe(out) == body(text, *archive),
{
    let kept = text_column(text);
    match archive {
        Some(bytes) => message_body(kept, Some(bytes.as_slice())),
        None => message_body(kept, None),
    }
}

/// One row of the message query. A column that is missing, or that cannot be
/// read as what it should be, is `None`.
#[derive(Debug)]
pub struct MessageRow {
    pub rowid: Option<i64>,
    pub guid: Option<String>,
    pub is_from_me: Option<i64>,
    pub text: Option<String>,
    pub attributed_body: Option<Vec<u8>>,
    pub associated_message_type: Option<i64>,
    pub date: Option<i64>,
    pub handle: Option<String>,
    pub chat_id: Option<i64>,
    pub chat_name: Option<String>,
    pub service: Option<String>,
    pub thread_originator_guid: Option<String>,
}

/// `message` is what `row` says, before anything from other tables is put on it.
pub open spec fn says(row: MessageRow, contacts: Seq<ContactView>, message: Message) -> bool {
    &&& message.rowid == counted(row.rowid)
    &&& message.guid@ == (match column(row.guid) {
        Some(guid) => guid,
        None => Seq::<char>::empty(),
    })
    &&& message.is_from_me == (counted(row.is_from_me) == 1)
    &&& text::maybe(message.body) == body(row.text, row.attributed_body)
    &&& message.associated_message_type == counted(row.associated_message_type)
    &&& message.is_tapback == (counted(row.associated_message_type) != 0)
    &&& message.date is Some <==> apple::instant(row.date) is Some
    &&& message.date is Some ==> message.date->0 == apple::instant(row.date)->0
    &&& text::maybe(message.handle) == column(row.handle)
    &&& text::maybe(message.contact_name) == known_as(column(row.handle), contacts)
    &&& message.sender@ == sender(counted(row.is_from_me) == 1, column(row.handle), contacts)
    &&& message.chat_id == counted(row.chat_id)
    &&& text::maybe(message.chat_name) == column(row.chat_name)
    &&& text::maybe(message.service) == column(row.service)
    &&& message.attachments@.len() == 0
    &&& message.reply_to is None
    &&& message.tapbacks@.len() == 0
    &&& message.matched
    &&& message.group is None
}

/// The message a row is.
pub fn to_message(row: MessageRow, contacts: &ContactIndex) -> (out: Message)
    ensures
        says(row, contacts@.contacts, out),
{
    let is_from_me = number(row.is_from_me) == 1;
    let handle = text_column(row.handle);
    let associated_message_type: i64 = number(row.associated_message_type);
    let contact_name = name_of(borrowed(&handle), contacts);
    let sender = sender_of(is_from_me, borrowed(&handle), contacts);
    let guid = match text_column(row.guid) {
        Some(guid) => guid,
        None => String::new(),
    };
    Message {
        rowid: number(row.rowid),
        guid,
        is_from_me,
        body: body_of(row.text, &row.attributed_body),
        associated_message_type,
        is_tapback: associated_message_type != 0,
        date: from_apple_date(row.date),
        handle,
        contact_name,
        sender,
        chat_id: number(row.chat_id),
        chat_name: text_column(row.chat_name),
        service: text_column(row.service),
        attachments: Vec::new(),
        reply_to: None,
        tapbacks: Vec::new(),
        matched: true,
        group: None,
    }
}

/// One row of the chat query.
#[derive(Debug)]
pub struct ChatRow {
    pub rowid: Option<i64>,
    pub guid: Option<String>,
    pub chat_identifier: Option<String>,
    pub display_name: Option<String>,
    pub is_filtered: Option<i64>,
    pub handles: Option<String>,
    pub member_count: Option<i64>,
    pub last_date: Option<i64>,
    pub message_count: Option<i64>,
}

/// A conversation's handles by the names they are known under.
pub open spec fn named(handles: Option<Seq<char>>, contacts: Seq<ContactView>) -> Option<Seq<char>> {
    match handles {
        None => None,
        Some(handles) => Some(
            text::join(contacts::named_each(contacts, text::split(handles, ',')), ", "@),
        ),
    }
}

/// A text that may be missing, or nothing.
pub open spec fn or_empty(text: Option<Seq<char>>) -> Seq<char> {
    match text {
        Some(text) => text,
        None => Seq::<char>::empty(),
    }
}

/// `chat` is what `row` says. A conversation is called its own name, or by the
/// people in it, or by its identifier.
pub open spec fn lists(row: ChatRow, contacts: Seq<ContactView>, chat: Chat) -> bool {
    &&& chat.rowid == counted(row.rowid)
    &&& chat.guid@ == or_empty(column(row.guid))
    &&& chat.identifier@ == or_empty(column(row.chat_identifier))
    &&& text::maybe(chat.display_name) == column(row.display_name)
    &&& text::maybe(chat.handles) == column(row.handles)
    &&& text::maybe(chat.named_handles) == named(column(row.handles), contacts)
    &&& chat.is_filtered == (counted(row.is_filtered) != 0)
    &&& chat.member_count == counted(row.member_count)
    &&& chat.is_group == (counted(row.member_count) > 1)
    &&& chat.last_date is Some <==> apple::instant(row.last_date) is Some
    &&& chat.last_date is Some ==> chat.last_date->0 == apple::instant(row.last_date)->0
    &&& chat.message_count == counted(row.message_count)
    &&& chat.name@ == (match column(row.display_name) {
        Some(name) => name,
        None => match named(column(row.handles), contacts) {
            Some(names) => names,
            None => or_empty(column(row.chat_identifier)),
        },
    })
}

/// The chat a row is.
pub fn chat_from_row(row: ChatRow, contacts: &ContactIndex) -> (out: Chat)
    ensures
        lists(row, contacts@.contacts, out),
{
    let display_name = text_column(row.display_name);
    let handles = text_column(row.handles);
    let identifier = match text_column(row.chat_identifier) {
        Some(identifier) => identifier,
        None => String::new(),
    };
    let guid = match text_column(row.guid) {
        Some(guid) => guid,
        None => String::new(),
    };
    let member_count: i64 = number(row.member_count);
    let named_handles = name_handles(contacts, borrowed(&handles));
    let name = match (&display_name, &named_handles) {
        (Some(name), _) => name.clone(),
        (None, Some(names)) => names.clone(),
        (None, None) => identifier.clone(),
    };
    Chat {
        rowid: number(row.rowid),
        guid,
        identifier,
        display_name,
        handles,
        named_handles,
        is_filtered: number(row.is_filtered) != 0,
        member_count,
        is_group: member_count > 1,
        last_date: from_apple_date(row.last_date),
        message_count: number(row.message_count),
        name,
    }
}

/// The symbol a kind of reaction is shown as: the classic six as their Messages
/// emoji, a 2006 as the emoji the sender chose. Nothing for a kind that nobody
/// has identified.
pub open spec fn symbol(kind: int, emoji: Option<Seq<char>>) -> Option<Seq<char>> {
    if kind == 2000 {
        Some("❤️"@)
    } else if kind == 2001 {
        Some("👍"@)
    } else if kind == 2002 {
        Some("👎"@)
    } else if kind == 2003 {
        Some("😂"@)
    } else if kind == 2004 {
        Some("‼️"@)
    } else if kind == 2005 {
        Some("❓"@)
    } else if kind == 2006 && emoji is Some && emoji->0.len() > 0 {
        emoji
    } else {
        None
    }
}

/// The symbol a kind of reaction is shown as, or `None` for a kind that renders
/// nowhere rather than guessing.
pub fn tapback_symbol(kind: i64, emoji: Option<&str>) -> (out: Option<String>)
    ensures
        text::maybe(out) == symbol(kind as int, text::maybe_str(emoji)),
{
    match kind {
        2000 => Some("❤️".to_owned()),
        2001 => Some("👍".to_owned()),
        2002 => Some("👎".to_owned()),
        2003 => Some("😂".to_owned()),
        2004 => Some("‼️".to_owned()),
        2005 => Some("❓".to_owned()),
        2006 => match emoji {
            Some(emoji) => if emoji.is_empty() {
                None
            } else {
                Some(emoji.to_owned())
            },
            None => None,
        },
        _ => None,
    }
}

/// The gap between neighbouring doubles at `n`.
pub open spec fn gap(n: nat) -> nat
    decreases n,
{
    if n < 0x20_0000_0000_0000 {
        1
    } else {
        2 * gap(n / 2)
    }
}

/// `n / d`, to the nearest whole number and to the even one of two as near.
pub open spec fn to_even(n: nat, d: nat) -> nat {
    let q = n / d;
    let r = n % d;
    if 2 * r > d || (2 * r == d && q % 2 == 1) {
        q + 1
    } else {
        q
    }
}

/// `n` as a double holds it: to fifty-three significant bits.
pub open spec fn as_double(n: nat) -> nat {
    to_even(n, gap(n)) * gap(n)
}

/// A size to one decimal place in a unit.
pub open spec fn in_units(size: nat, scale: nat, unit: Seq<char>) -> Seq<char> {
    let tenths = to_even(size * 10, scale);
    text::digits(tenths / 10) + "."@ + text::digits(tenths % 10) + " "@ + unit
}

/// A size as a reader thinks of it: bytes below a kilobyte, and one decimal
/// place in the largest unit that leaves at least one of it, up to terabytes.
pub open spec fn readable(bytes: int) -> Seq<char> {
    let size = as_double(bytes as nat);
    if bytes < 1024 {
        text::decimal(bytes) + " B"@
    } else if size < 0x10_0000 {
        in_units(size, 0x400, "KB"@)
    } else if size < 0x4000_0000 {
        in_units(size, 0x10_0000, "MB"@)
    } else if size < 0x100_0000_0000 {
        in_units(size, 0x4000_0000, "GB"@)
    } else {
        in_units(size, 0x100_0000_0000, "TB"@)
    }
}

proof fn gap_bounds(n: nat)
    requires
        n <= 0x7fff_ffff_ffff_ffff,
    ensures
        1 <= gap(n) <= 1024,
        n < 0x40_0000_0000_0000 ==> gap(n) <= 2,
{
    reveal_with_fuel(gap, 12);
}

/// The gap between neighbouring doubles at `n`.
fn gap_at(n: u64) -> (out: u64)
    requires
        n <= 0x7fff_ffff_ffff_ffff,
    ensures
        out == gap(n as nat),
        1 <= out <= 1024,
    decreases n,
{
    proof {
        gap_bounds(n as nat);
        gap_bounds(n as nat / 2);
    }
    if n < 0x20_0000_0000_0000 {
        1
    } else {
        2 * gap_at(n / 2)
    }
}

/// `n / d`, to the nearest and then the even.
fn nearest_even(n: u128, d: u128) -> (out: u128)
    requires
        0 < d <= 0x100_0000_0000,
        n < 0x1_0000_0000_0000_0000_0000,
    ensures
        out == to_even(n as nat, d as nat),
        out <= n / d + 1,
{
    let q: u128 = n / d;
    let r: u128 = n % d;
    if 2 * r > d || (2 * r == d && q % 2 == 1) {
        q + 1
    } else {
        q
    }
}

/// A size to one decimal place in a unit.
fn written_in(size: u64, scale: u64, unit: &str) -> (out: String)
    requires
        0x400 <= scale <= 0x100_0000_0000,
        size <= 0x8000_0000_0000_0000,
    ensures
        out@ == in_units(size as nat, scale as nat, unit@),
{
    let tenths: u128 = nearest_even(size as u128 * 10, scale as u128);
    assert((size as int * 10) / (scale as int) <= (size as int * 10) / 0x400) by (nonlinear_arith)
        requires
            scale >= 0x400,
    ;
    let mut out: String = digits_of((tenths / 10) as u64);
    out.append(".");
    out.append(digits_of((tenths % 10) as u64).as_str());
    out.append(" ");
    out.append(unit);
    out
}

/// Sizes as a reader thinks of them, to one decimal place above a kilobyte.
pub fn human_bytes(bytes: i64) -> (out: String)
    ensures
        out@ == readable(bytes as int),
{
    if bytes < 1024 {
        let mut out: String = decimal_of(bytes);
        out.append(" B");
        return out;
    }
    let exact: u64 = bytes as u64;
    let step: u64 = gap_at(exact);
    let steps: u128 = nearest_even(exact as u128, step as u128);
    proof {
        gap_bounds(exact as nat);
        double_bounds(exact as nat);
    }
    let size: u64 = (steps * (step as u128)) as u64;
    if size < 0x10_0000 {
        written_in(size, 0x400, "KB")
    } else if size < 0x4000_0000 {
        written_in(size, 0x10_0000, "MB")
    } else if size < 0x100_0000_0000 {
        written_in(size, 0x4000_0000, "GB")
    } else {
        written_in(size, 0x100_0000_0000, "TB")
    }
}

proof fn double_bounds(n: nat)
    requires
        n <= 0x7fff_ffff_ffff_ffff,
    ensures
        to_even(n, gap(n)) * gap(n) <= 0x8000_0000_0000_0000,
{
    gap_bounds(n);
    let d = gap(n);
    let q = n / d;
    // The gap divides 2^63, so rounding up never passes it.
    assert(d == 1 || d == 2 || d == 4 || d == 8 || d == 16 || d == 32 || d == 64 || d == 128 || d
        == 256 || d == 512 || d == 1024) by {
        reveal_with_fuel(gap, 12);
    }
    assert((q + 1) * d <= 0x8000_0000_0000_0000) by (nonlinear_arith)
        requires
            q == n / d,
            n <= 0x7fff_ffff_ffff_ffff,
            d == 1 || d == 2 || d == 4 || d == 8 || d == 16 || d == 32 || d == 64 || d == 128 || d
                == 256 || d == 512 || d == 1024,
    ;
    assert(q * d <= (q + 1) * d) by (nonlinear_arith);
}

impl Attachment {
    /// What type to call this: a MIME type when Messages recorded one, and
    /// otherwise Apple's UTI unless it is the `dyn.…` kind that says nothing.
    pub open spec fn kind_of(&self) -> Option<Seq<char>> {
        match text::maybe(self.mime_type) {
            Some(mime) => Some(mime),
            None => match text::maybe(self.uti) {
                Some(uti) => if "dyn."@.is_prefix_of(uti) {
                    None
                } else {
                    Some(uti)
                },
                None => None,
            },
        }
    }

    /// What is said of this attachment, part by part.
    pub open spec fn parts(&self) -> Seq<Seq<char>> {
        let sticker = if self.is_sticker {
            seq!["sticker"@]
        } else {
            Seq::<Seq<char>>::empty()
        };
        let called = match (text::maybe(self.name), self.kind_of()) {
            (Some(name), _) => sticker.push(name),
            (None, Some(kind)) => sticker.push(kind),
            (None, None) => if self.is_sticker {
                sticker
            } else {
                sticker.push("attachment"@)
            },
        };
        if !self.is_downloaded {
            called.push("not downloaded"@)
        } else if self.total_bytes > 0 {
            called.push(readable(self.total_bytes as int))
        } else {
            called
        }
    }

    /// What stands in for this attachment in the body.
    pub open spec fn described(&self) -> Seq<char> {
        "[#"@ + text::decimal(self.rowid as int) + " "@ + text::join(self.parts(), ", "@) + "]"@
    }

    /// What type to call this, for a reader rather than for a consumer.
    fn kind(&self) -> (out: Option<String>)
        ensures
            text::maybe(out) == self.kind_of(),
    {
        if let Some(mime) = &self.mime_type {
            return Some(mime.clone());
        }
        match &self.uti {
            Some(uti) => {
                let chars = chars_of(uti.as_str());
                let synthesized = chars_of("dyn.");
                if opens_with(&chars, &synthesized) {
                    None
                } else {
                    Some(uti.clone())
                }
            },
            None => None,
        }
    }

    /// What stands in for this attachment in the body, in place of U+FFFC.
    ///
    /// The rowid leads, because it is the only way to name this file: the path
    /// is deliberately not published, and `msg save` takes an id.
    pub fn describe(&self) -> (out: String)
        ensures
            out@ == self.described(),
    {
        let mut parts: Vec<String> = Vec::new();
        let ghost mut shown: Seq<Seq<char>> = Seq::empty();
        if self.is_sticker {
            parts.push("sticker".to_owned());
            proof {
                shown = seq!["sticker"@];
            }
        }
        assert(text::all_of(parts@) =~= shown);
        let called: Option<String> = match &self.name {
            Some(name) => Some(name.clone()),
            None => match self.kind() {
                Some(kind) => Some(kind),
                None => if self.is_sticker {
                    None
                } else {
                    Some("attachment".to_owned())
                },
            },
        };
        if let Some(called) = called {
            proof {
                shown = shown.push(called@);
            }
            parts.push(called);
        }
        assert(text::all_of(parts@) =~= shown);
        if !self.is_downloaded {
            parts.push("not downloaded".to_owned());
            proof {
                shown = shown.push("not downloaded"@);
            }
        } else if self.total_bytes > 0 {
            parts.push(human_bytes(self.total_bytes));
            proof {
                shown = shown.push(readable(self.total_bytes as int));
            }
        }
        assert(text::all_of(parts@) =~= shown);
        assert(shown =~= self.parts());
        let mut out: String = "[#".to_owned();
        out.append(decimal_of(self.rowid).as_str());
        out.append(" ");
        out.append(joined(&parts, ", ").as_str());
        out.append("]");
        out
    }
}

/// A text column with something in it.
pub open spec fn filled_in(raw: Option<String>) -> bool {
    raw is Some && raw->0@.len() > 0
}

/// A message is what its row says, column by column: nothing of one column is told as
/// another's.
pub proof fn a_message_is_what_its_row_says(
    row: MessageRow,
    contacts: Seq<ContactView>,
    message: Message,
)
    requires
        says(row, contacts, message),
    ensures
        row.rowid matches Some(rowid) ==> message.rowid == rowid,
        row.chat_id matches Some(chat) ==> message.chat_id == chat,
        filled_in(row.guid) ==> message.guid@ == row.guid->0@,
        filled_in(row.text) ==> message.body is Some && message.body->0@ == row.text->0@,
        !filled_in(row.text) && row.attributed_body is None ==> message.body is None,
        filled_in(row.chat_name) ==> message.chat_name is Some && message.chat_name->0@
            == row.chat_name->0@,
        !filled_in(row.chat_name) ==> message.chat_name is None,
        filled_in(row.service) ==> message.service is Some && message.service->0@
            == row.service->0@,
        filled_in(row.handle) ==> message.handle is Some && message.handle->0@ == row.handle->0@,
        !filled_in(row.handle) ==> message.handle is None && message.contact_name is None,
        message.is_tapback <==> row.associated_message_type is Some
            && row.associated_message_type->0 != 0,
        row.associated_message_type matches Some(kind) ==> message.associated_message_type == kind,
        message.is_from_me <==> row.is_from_me == Some(1i64),
        row.date is None ==> message.date is None,
        row.date matches Some(date) ==> (date > 1_000_000_000_000 ==> message.date is Some
            && message.date->0 == date as int / 1_000_000 + 978_307_200_000),
{
}

/// Who a message is from: me where it is mine, and else the name its address is known
/// under, or the address where it is known under none. Mine are never told as somebody
/// else's, though they carry the address they went to.
pub proof fn a_message_is_told_by_its_sender(
    row: MessageRow,
    contacts: Seq<ContactView>,
    message: Message,
)
    requires
        says(row, contacts, message),
    ensures
        row.is_from_me == Some(1i64) ==> message.sender@ == "me"@,
        row.is_from_me != Some(1i64) && !filled_in(row.handle) ==> message.sender@ == "unknown"@,
        row.is_from_me != Some(1i64) && filled_in(row.handle) ==> match contacts::held(
            contacts,
            row.handle->0@,
        ) {
            Some(contact) => message.sender@ == contact.name && message.contact_name is Some
                && message.contact_name->0@ == contact.name,
            None => message.sender@ == row.handle->0@ && message.contact_name is None,
        },
{
}

/// A chat is what its row says, column by column; a group is one of more than one other
/// person.
pub proof fn a_chat_is_what_its_row_says(row: ChatRow, contacts: Seq<ContactView>, chat: Chat)
    requires
        lists(row, contacts, chat),
    ensures
        row.rowid matches Some(rowid) ==> chat.rowid == rowid,
        filled_in(row.guid) ==> chat.guid@ == row.guid->0@,
        filled_in(row.chat_identifier) ==> chat.identifier@ == row.chat_identifier->0@,
        filled_in(row.display_name) ==> chat.display_name is Some && chat.display_name->0@
            == row.display_name->0@,
        !filled_in(row.display_name) ==> chat.display_name is None,
        filled_in(row.handles) ==> chat.handles is Some && chat.handles->0@ == row.handles->0@,
        !filled_in(row.handles) ==> chat.handles is None && chat.named_handles is None,
        row.member_count matches Some(n) ==> chat.member_count == n,
        row.message_count matches Some(n) ==> chat.message_count == n,
        chat.is_group <==> row.member_count is Some && row.member_count->0 > 1,
        chat.is_filtered <==> row.is_filtered is Some && row.is_filtered->0 != 0,
        row.last_date is None ==> chat.last_date is None,
        row.last_date matches Some(date) ==> (date > 1_000_000_000_000 ==> chat.last_date is Some
            && chat.last_date->0 == date as int / 1_000_000 + 978_307_200_000),
{
}

/// What a conversation is called: the name it was given, else whoever it is with, by
/// the name they are known under or by their address, else its identifier.
pub proof fn a_chat_is_called_by_its_name_or_its_people(
    row: ChatRow,
    contacts: Seq<ContactView>,
    chat: Chat,
)
    requires
        lists(row, contacts, chat),
    ensures
        filled_in(row.display_name) ==> chat.name@ == row.display_name->0@,
        !filled_in(row.display_name) && filled_in(row.handles) && !row.handles->0@.contains(',')
            ==> chat.name@ == (match contacts::held(contacts, row.handles->0@) {
            Some(contact) => contact.name,
            None => row.handles->0@,
        }),
        !filled_in(row.display_name) && !filled_in(row.handles) && filled_in(row.chat_identifier)
            ==> chat.name@ == row.chat_identifier->0@,
{
    if filled_in(row.handles) && !row.handles->0@.contains(',') {
        text::what_is_not_cut_is_whole(row.handles->0@, ',');
        let each = contacts::named_each(contacts, text::split(row.handles->0@, ','));
        assert(each.len() == 1);
        assert(text::join(each, ", "@) == each[0]);
    }
}

/// A conversation without a name is called by everybody in it.
pub proof fn everybody_is_in_the_name(
    row: ChatRow,
    contacts: Seq<ContactView>,
    chat: Chat,
    i: int,
)
    requires
        lists(row, contacts, chat),
        !filled_in(row.display_name),
        filled_in(row.handles),
        0 <= i < text::split(row.handles->0@, ',').len(),
    ensures
        text::contains(
            chat.name@,
            match contacts::held(contacts, text::split(row.handles->0@, ',')[i]) {
                Some(contact) => contact.name,
                None => text::split(row.handles->0@, ',')[i],
            },
        ),
{
    let each = contacts::named_each(contacts, text::split(row.handles->0@, ','));
    text::a_part_is_held(each, ", "@, i);
}

/// Each kind of reaction has the symbol Messages shows for it, a chosen emoji is the
/// one that was chosen, and nothing else is shown as anything.
pub proof fn a_reaction_has_its_symbol(kind: int, emoji: Option<Seq<char>>)
    ensures
        symbol(2000, emoji) == Some("❤️"@),
        symbol(2001, emoji) == Some("👍"@),
        symbol(2002, emoji) == Some("👎"@),
        symbol(2003, emoji) == Some("😂"@),
        symbol(2004, emoji) == Some("‼️"@),
        symbol(2005, emoji) == Some("❓"@),
        emoji is Some && emoji->0.len() > 0 ==> symbol(2006, emoji) == emoji,
        kind < 2000 || kind > 2006 ==> symbol(kind, emoji) is None,
{
}

/// What is said of an attachment: the id it is saved by first, then what it is called,
/// and whether its file is there, or how large it is.
pub proof fn an_attachment_is_told_by_its_id_and_name(attachment: Attachment)
    ensures
        ("[#"@ + text::decimal(attachment.rowid as int) + " "@).is_prefix_of(
            attachment.described(),
        ),
        attachment.described().last() == ']',
        attachment.name matches Some(name) ==> text::contains(attachment.described(), name@),
        attachment.name is None && attachment.mime_type is Some ==> text::contains(
            attachment.described(),
            attachment.mime_type->0@,
        ),
        attachment.is_sticker ==> text::contains(attachment.described(), "sticker"@),
        !attachment.is_downloaded ==> text::contains(attachment.described(), "not downloaded"@),
        attachment.is_downloaded && attachment.total_bytes > 0 ==> text::contains(
            attachment.described(),
            readable(attachment.total_bytes as int),
        ),
{
    reveal_strlit("]");
    let parts = attachment.parts();
    let front = "[#"@ + text::decimal(attachment.rowid as int) + " "@;
    let inner = text::join(parts, ", "@);
    let all = attachment.described();
    assert(all == front + inner + "]"@);
    assert(all.take(front.len() as int) =~= front);
    assert forall|i: int| 0 <= i < parts.len() implies text::contains(all, #[trigger] parts[i]) by {
        text::a_part_is_held(parts, ", "@, i);
        let at = choose|at: int| text::occurs_at(inner, parts[i], at);
        let there = front.len() + at;
        assert(all.subrange(there, there + parts[i].len()) =~= inner.subrange(
            at,
            at + parts[i].len(),
        ));
        assert(text::occurs_at(all, parts[i], there));
    }
    let n = if attachment.is_sticker {
        1int
    } else {
        0
    };
    if attachment.name is Some {
        assert(parts[n] == attachment.name->0@);
    } else if attachment.mime_type is Some {
        assert(parts[n] == attachment.mime_type->0@);
    }
    if attachment.is_sticker {
        assert(parts[0] == "sticker"@);
    }
    if !attachment.is_downloaded {
        assert(parts[parts.len() - 1] == "not downloaded"@);
    } else if attachment.total_bytes > 0 {
        assert(parts[parts.len() - 1] == readable(attachment.total_bytes as int));
    }
}

/// A size is told in the unit it is of, to a tenth: the tenths that are written are
/// within half a tenth of it.
pub proof fn a_size_is_told_to_a_tenth(bytes: int)
    requires
        1024 <= bytes < 0x20_0000_0000_0000,
    ensures
        ({
            let (scale, unit) = if bytes < 1_048_576 {
                (1024int, "KB"@)
            } else if bytes < 1_073_741_824 {
                (1_048_576int, "MB"@)
            } else if bytes < 1_099_511_627_776 {
                (1_073_741_824int, "GB"@)
            } else {
                (1_099_511_627_776int, "TB"@)
            };
            exists|tenths: nat|
                -scale <= 2 * (bytes * 10 - tenths * scale) <= scale && readable(bytes)
                    == #[trigger] text::digits(tenths / 10) + "."@ + text::digits(tenths % 10) + " "@
                    + unit
        }),
        forall|small: int| 0 <= small < 1024 ==> #[trigger] readable(small) == text::decimal(small)
            + " B"@,
{
    let n = bytes as nat;
    assert(gap(n) == 1);
    assert(n / 1 == n && n % 1 == 0);
    assert(as_double(n) == n);
    let (scale, unit) = if bytes < 1_048_576 {
        (1024int, "KB"@)
    } else if bytes < 1_073_741_824 {
        (1_048_576int, "MB"@)
    } else if bytes < 1_099_511_627_776 {
        (1_073_741_824int, "GB"@)
    } else {
        (1_099_511_627_776int, "TB"@)
    };
    let tenths = to_even(n * 10, scale as nat);
    assert(-scale <= 2 * (bytes * 10 - tenths * scale) <= scale) by (nonlinear_arith)
        requires
            scale > 0,
            n == bytes,
            tenths == (n * 10) / (scale as nat) || tenths == (n * 10) / (scale as nat) + 1,
            tenths == (n * 10) / (scale as nat) ==> 2 * ((n * 10) % (scale as nat)) <= scale,
            tenths == (n * 10) / (scale as nat) + 1 ==> 2 * ((n * 10) % (scale as nat)) >= scale,
    ;
    assert(readable(bytes) == in_units(n, scale as nat, unit));
}

/// An attachment without a name is called by what it is: by its type, unless that is one
/// of those Apple makes up, which say nothing.
pub proof fn a_made_up_type_says_nothing(attachment: Attachment)
    requires
        attachment.name is None,
        attachment.mime_type is None,
        !attachment.is_sticker,
    ensures
        attachment.uti is Some && !"dyn."@.is_prefix_of(attachment.uti->0@) ==> attachment.parts()[0]
            == attachment.uti->0@,
        attachment.uti is None || "dyn."@.is_prefix_of(attachment.uti->0@)
            ==> attachment.parts()[0] == "attachment"@,
{
}

/// A fraction is rounded to the nearest whole number, and of two as near to the even one.
pub proof fn rounding_goes_to_the_nearest(n: nat, d: nat)
    requires
        d > 0,
    ensures
        -(d as int) <= 2 * (n - to_even(n, d) * d) <= d,
        2 * (n - to_even(n, d) * d) == d || 2 * (n - to_even(n, d) * d) == -(d as int) ==> to_even(
            n,
            d,
        ) % 2 == 0,
{
    let q = n / d;
    let r = n % d;
    let out = to_even(n, d);
    assert(n == q * d + r && 0 <= r < d) by (nonlinear_arith)
        requires
            d > 0,
            q == n / d,
            r == n % d,
    ;
    assert((q + 1) * d == q * d + d) by (nonlinear_arith);
    if out == q {
        assert(n - out * d == r);
    } else {
        assert(n - out * d == r - d);
    }
}

} // verus!
