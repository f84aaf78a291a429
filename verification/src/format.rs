//! Rendering for a terminal.
//!
//! Instants are milliseconds since the Unix epoch. A *clock reading* is the same
//! count taken as if the clock on the wall showed UTC, so that its day, its hour
//! and its year are those a reader sees.
use vstd::prelude::*;

use crate::apple::now_millis;
use crate::db::{Chat, Message, Tapback};
use crate::iso;
use crate::text::{self, chars_of, decimal_of, has_char, joined, slice_text, text_of, trim_text_end};

verus! {

/// `9:35 AM`. English and fixed, whatever the machine's locale.
pub const TIME: &'static str = "%-I:%M %p";

/// `Jan 15, 9:36 AM`.
pub const DATE_TIME: &'static str = "%b %-d, %-I:%M %p";

/// `Friday`.
pub const WEEKDAY: &'static str = "%A";

/// `Friday, July 7`.
pub const DATE: &'static str = "%A, %B %-d";

/// `Friday, July 7, 2023`.
pub const FULL_DATE: &'static str = "%A, %B %-d, %Y";

/// A day, in milliseconds.
pub const DAY: i64 = 86_400_000;

/// An instant that every clock on earth can show: a day inside the calendar at
/// both ends.
pub open spec fn displayable(millis: int) -> bool {
    iso::in_calendar(millis - DAY) && iso::in_calendar(millis + DAY)
}

/// Whether every clock on earth can show an instant.
pub fn is_displayable(millis: i64) -> (yes: bool)
    ensures
        yes == displayable(millis as int),
{
    -8_334_601_142_400_000 <= millis && millis <= 8_210_266_790_399_999
}

/// A clock that differs from another by less than a day.
pub open spec fn near(millis: int, clock: int) -> bool {
    millis - DAY < clock < millis + DAY
}

/// `chrono::DateTime::with_timezone(&Local)` and `naive_local`: what this
/// machine's clock shows at an instant. It rests on the machine's time zone, so
/// all that is said is that an offset is less than a day.
#[verifier::external_body]
fn local_clock(millis: i64) -> (out: i64)
    requires
        displayable(millis as int),
    ensures
        near(millis as int, out as int),
{
    let utc = chrono::DateTime::from_timestamp_millis(millis).unwrap_or_default();
    utc.with_timezone(&chrono::Local).naive_local().and_utc().timestamp_millis()
}

/// What `chrono`'s `format` writes of a clock reading under a layout.
pub uninterp spec fn strftime(clock: i64, layout: Seq<char>) -> Seq<char>;

/// One of the layouts used here.
pub open spec fn layout(pattern: Seq<char>) -> bool {
    pattern == TIME@ || pattern == DATE_TIME@ || pattern == WEEKDAY@ || pattern == DATE@ || pattern
        == FULL_DATE@
}

/// `chrono::DateTime::format`: a clock reading written out under a layout. A
/// function of the two.
#[verifier::external_body]
fn written(clock: i64, pattern: &str) -> (out: String)
    requires
        iso::in_calendar(clock as int),
        layout(pattern@),
    ensures
        out@ == strftime(clock, pattern@),
{
    chrono::DateTime::from_timestamp_millis(clock).unwrap_or_default().format(pattern).to_string()
}

/// The calendar year of a clock reading, as `chrono` counts it.
pub uninterp spec fn year(clock: i64) -> int;

/// `chrono::Datelike::year`. A function of the clock reading.
#[verifier::external_body]
fn year_of(clock: i64) -> (out: i32)
    requires
        iso::in_calendar(clock as int),
    ensures
        out == year(clock),
{
    chrono::Datelike::year(&chrono::DateTime::from_timestamp_millis(clock).unwrap_or_default())
}

/// The day a clock reading falls on, counted from the epoch.
pub open spec fn day(clock: int) -> int {
    clock / DAY as int
}

/// The day a clock reading falls on.
pub fn day_of(clock: i64) -> (out: i64)
    ensures
        out == day(clock as int),
{
    if clock >= 0 {
        clock / DAY
    } else {
        -1 - (-1 - clock) / DAY
    }
}

/// What a clock reading is stamped as: a time today, and a date and time on any
/// other day. Nothing where there is no date.
pub open spec fn timestamp(clock: Option<i64>, now: i64) -> Seq<char> {
    match clock {
        None => Seq::<char>::empty(),
        Some(clock) => if day(clock as int) == day(now as int) {
            strftime(clock, TIME@)
        } else {
            strftime(clock, DATE_TIME@)
        },
    }
}

/// What a clock reading is stamped as.
pub fn timestamp_at(clock: Option<i64>, now: i64) -> (out: String)
    requires
        clock is Some ==> iso::in_calendar(clock->0 as int),
    ensures
        out@ == timestamp(clock, now),
{
    match clock {
        None => String::new(),
        Some(clock) => if day_of(clock) == day_of(now) {
            written(clock, TIME)
        } else {
            written(clock, DATE_TIME)
        },
    }
}

/// What the clock on this machine shows at any instant of the calendar. One so
/// near an end of it that some clock could not show it is read as UTC.
fn clock_showing(now: i64) -> (out: i64)
    requires
        iso::in_calendar(now as int),
    ensures
        iso::in_calendar(out as int),
        displayable(now as int) ==> near(now as int, out as int),
        !displayable(now as int) ==> out == now,
{
    if is_displayable(now) {
        local_clock(now)
    } else {
        now
    }
}

/// What the clock on this machine shows now. It rests on the time and on the
/// machine's time zone, so all that is said is that it is a reading of the
/// calendar.
fn clock_now() -> (out: i64)
    ensures
        iso::in_calendar(out as int),
{
    clock_showing(now_millis())
}

/// `clock` is what some machine's clock shows at `date`, if there is one.
pub open spec fn shows(date: Option<i64>, clock: Option<i64>) -> bool {
    &&& clock is Some <==> date is Some
    &&& date is Some ==> near(date->0 as int, clock->0 as int)
}

/// What the clock on this machine shows at a date.
fn clock_at(date: Option<i64>) -> (out: Option<i64>)
    requires
        date is Some ==> displayable(date->0 as int),
    ensures
        shows(date, out),
{
    match date {
        Some(date) => Some(local_clock(date)),
        None => None,
    }
}

/// A date as a reader on this machine thinks of it, `9:35 AM` today and
/// `Jan 15, 9:36 AM` otherwise.
pub fn format_timestamp(date: Option<i64>) -> (out: String)
    requires
        date is Some ==> displayable(date->0 as int),
    ensures
        date is None ==> out@ == Seq::<char>::empty(),
        exists|clock: Option<i64>, now: i64|
            shows(date, clock) && out@ == #[trigger] timestamp(clock, now),
{
    let clock = clock_at(date);
    let now: i64 = clock_now();
    timestamp_at(clock, now)
}

/// How many whole seconds ago a date was, and none for one still to come.
pub open spec fn seconds_ago(date: int, now: int) -> int {
    if now > date {
        (now - date) / 1000
    } else {
        0
    }
}

/// How long ago a date was, in the largest unit that fits, while it is less than
/// thirty days. A date still to come is `just now`, and no date is `never`.
pub open spec fn age(date: Option<i64>, now: i64) -> Option<Seq<char>> {
    match date {
        None => Some("never"@),
        Some(date) => {
            let seconds = seconds_ago(date as int, now as int);
            if seconds < 60 {
                Some("just now"@)
            } else if seconds < 3_600 {
                Some(text::decimal(seconds / 60) + "m ago"@)
            } else if seconds < 86_400 {
                Some(text::decimal(seconds / 3_600) + "h ago"@)
            } else if seconds < 2_592_000 {
                Some(text::decimal(seconds / 86_400) + "d ago"@)
            } else {
                None
            }
        },
    }
}

/// A count and a unit.
fn counted(n: i64, unit: &str) -> (out: String)
    ensures
        out@ == text::decimal(n as int) + unit@,
{
    let mut out: String = decimal_of(n);
    out.append(unit);
    out
}

/// How long ago a date was, or `None` where that is better said with a date.
pub fn age_at(date: Option<i64>, now: i64) -> (out: Option<String>)
    ensures
        text::maybe(out) == age(date, now),
{
    match date {
        None => Some("never".to_owned()),
        Some(date) => {
            let seconds: i64 = if now > date {
                ((now as i128 - date as i128) / 1000) as i64
            } else {
                0
            };
            assert(seconds == seconds_ago(date as int, now as int));
            if seconds < 60 {
                Some("just now".to_owned())
            } else if seconds < 3_600 {
                Some(counted(seconds / 60, "m ago"))
            } else if seconds < 86_400 {
                Some(counted(seconds / 3_600, "h ago"))
            } else if seconds < 2_592_000 {
                Some(counted(seconds / 86_400, "d ago"))
            } else {
                None
            }
        },
    }
}

/// `text` is how long ago a date was, at some time and on some clock.
pub open spec fn reads_as_age(date: Option<i64>, text: Seq<char>) -> bool {
    exists|now: i64, clock: i64|
        #![trigger age(date, now), strftime(clock, DATE_TIME@)]
        match age(date, now) {
            Some(age) => text == age,
            None => near(date->0 as int, clock as int) && text == strftime(clock, DATE_TIME@),
        }
}

/// How long ago a date was, and past thirty days the date itself.
pub fn relative_age(date: Option<i64>) -> (out: String)
    requires
        date is Some ==> displayable(date->0 as int),
    ensures
        date is None ==> out@ == "never"@,
        reads_as_age(date, out@),
{
    let now: i64 = now_millis();
    match (age_at(date, now), date) {
        (None, Some(date)) => {
            let clock: i64 = local_clock(date);
            let out = written(clock, DATE_TIME);
            assert(age(Some(date), now) is None);
            out
        },
        (Some(age), _) => {
            assert(strftime(0, DATE_TIME@) == strftime(0, DATE_TIME@));
            age
        },
        (None, None) => String::new(),
    }
}

/// How many terminal cells a text occupies, as `unicode-width` measures it.
pub uninterp spec fn cells(text: Seq<char>) -> nat;

/// `unicode_width::UnicodeWidthStr::width`: how many terminal cells a text
/// occupies. A function of the text, and one for an ellipsis alone.
#[verifier::external_body]
fn measured(value: &str) -> (out: usize)
    ensures
        out == cells(value@),
        value@ == seq!['…'] ==> out == 1,
{
    unicode_width::UnicodeWidthStr::width(value)
}

/// How many terminal cells a text occupies.
///
/// Bytes and characters are both the wrong count for lining up a column: `café`
/// is five bytes, and `😀` is one character that a terminal draws in two cells.
pub fn width_of(value: &str) -> (out: usize)
    ensures
        out == cells(value@),
{
    measured(value)
}

/// How many terminal cells a character occupies, as `unicode-width` measures it.
pub uninterp spec fn char_cells(c: char) -> Option<usize>;

/// `unicode_width::UnicodeWidthChar::width`: how many terminal cells a character
/// occupies, or nothing for a control character. A function of the character.
#[verifier::external_body]
fn char_width(c: char) -> (out: Option<usize>)
    ensures
        out == char_cells(c),
{
    unicode_width::UnicodeWidthChar::width(c)
}

/// The cells of a character, none for a control character.
pub open spec fn cells_of(c: char) -> nat {
    match char_cells(c) {
        Some(n) => n as nat,
        None => 0,
    }
}

/// The cells of characters, one after another.
pub open spec fn cells_of_all(s: Seq<char>) -> nat
    decreases s.len(),
{
    if s.len() == 0 {
        0
    } else {
        cells_of_all(s.drop_last()) + cells_of(s.last())
    }
}

/// How many characters of `s` fit in `budget` cells, counting from the front and
/// stopping at the first that does not.
pub open spec fn fitting(s: Seq<char>, budget: int) -> nat
    decreases s.len(),
{
    if s.len() == 0 {
        0
    } else {
        let before = fitting(s.drop_last(), budget);
        if before == s.len() - 1 && cells_of_all(s) <= budget {
            s.len()
        } else {
            before
        }
    }
}

/// The first `n` characters of a text and an ellipsis.
pub open spec fn shortened(value: Seq<char>, n: int) -> Seq<char> {
    value.take(n).push('…')
}

/// How many of the first `n` characters can be kept so that they and an ellipsis
/// measure at most `width`: characters together can be wider than each on its
/// own, as a heart is with a variation selector behind it.
pub open spec fn measuring(value: Seq<char>, n: nat, width: int) -> nat
    decreases n,
{
    if n == 0 || cells(shortened(value, n as int)) <= width {
        n
    } else {
        measuring(value, (n - 1) as nat, width)
    }
}

/// A text cut to `width` cells, the last of them an ellipsis. A wide character
/// that would straddle the boundary is dropped whole rather than split.
pub open spec fn cut(value: Seq<char>, width: int) -> Seq<char> {
    if cells(value) <= width {
        value
    } else if width <= 0 {
        shortened(value, fitting(value, 0) as int)
    } else {
        shortened(value, measuring(value, fitting(value, width - 1), width) as int)
    }
}

proof fn measuring_is_within(value: Seq<char>, n: nat, width: int)
    requires
        cells(seq!['…']) <= width,
    ensures
        measuring(value, n, width) <= n,
        cells(shortened(value, measuring(value, n, width) as int)) <= width,
    decreases n,
{
    if n == 0 {
        assert(shortened(value, 0) =~= seq!['…']);
    } else if cells(shortened(value, n as int)) > width {
        measuring_is_within(value, (n - 1) as nat, width);
    }
}

proof fn fitting_is_within(s: Seq<char>, budget: int)
    requires
        budget >= 0,
    ensures
        fitting(s, budget) <= s.len(),
        cells_of_all(s.take(fitting(s, budget) as int)) <= budget,
    decreases s.len(),
{
    if s.len() == 0 {
        assert(s.take(0) =~= s);
    } else {
        fitting_is_within(s.drop_last(), budget);
        let n = fitting(s, budget) as int;
        if n == s.len() {
            assert(s.take(n) =~= s);
        } else {
            assert(s.take(n) =~= s.drop_last().take(n));
        }
    }
}

/// Once a character does not fit, nothing behind it is kept.
proof fn fitting_stops(s: Seq<char>, n: int, budget: int)
    requires
        0 <= n < s.len(),
        fitting(s.take(n), budget) == n,
        cells_of_all(s.take(n + 1)) > budget,
    ensures
        fitting(s, budget) == n,
    decreases s.len(),
{
    if n == s.len() - 1 {
        assert(s.take(n + 1) =~= s);
        assert(s.drop_last() =~= s.take(n));
    } else {
        assert(s.drop_last().take(n) =~= s.take(n));
        assert(s.drop_last().take(n + 1) =~= s.take(n + 1));
        fitting_stops(s.drop_last(), n, budget);
    }
}

/// Cut to `width` cells, leaving room for the ellipsis, which is one cell.
pub fn truncate(value: &str, width: usize) -> (out: String)
    ensures
        out@ == cut(value@, width as int),
        width >= 1 ==> cells(out@) <= width,
{
    if width_of(value) <= width {
        return value.to_owned();
    }
    let budget: usize = if width > 0 {
        width - 1
    } else {
        0
    };
    let chars = chars_of(value);
    let mut used: usize = 0;
    let mut at: usize = 0;
    let mut full = false;
    assert(chars@.take(0) =~= Seq::<char>::empty());
    while at < chars.len() && !full
        invariant
            chars@ == value@,
            at <= chars@.len(),
            used <= budget,
            used == cells_of_all(chars@.take(at as int)),
            fitting(chars@.take(at as int), budget as int) == at,
            full ==> fitting(chars@, budget as int) == at,
        decreases chars@.len() - at, (if full { 0int } else { 1int }),
    {
        let wide: usize = match char_width(chars[at]) {
            Some(wide) => wide,
            None => 0,
        };
        proof {
            let next = chars@.take(at + 1);
            assert(next.drop_last() =~= chars@.take(at as int));
            assert(next.last() == chars@[at as int]);
            assert(cells_of_all(next) == used + wide);
        }
        if wide > budget - used {
            proof {
                fitting_stops(chars@, at as int, budget as int);
            }
            full = true;
        } else {
            used += wide;
            at += 1;
        }
    }
    proof {
        if !full {
            assert(chars@.take(at as int) =~= chars@);
        }
        fitting_is_within(chars@, budget as int);
    }
    let ghost most = at as nat;
    let mut out: String = shorten(&chars, at);
    while width > 0 && measured(out.as_str()) > width
        invariant
            chars@ == value@,
            at <= chars@.len(),
            out@ == shortened(chars@, at as int),
            width > 0 ==> measuring(chars@, most, width as int) == measuring(
                chars@,
                at as nat,
                width as int,
            ),
            width == 0 ==> at == most,
        decreases at,
    {
        assert(at == 0 ==> out@ =~= seq!['…']);
        at -= 1;
        out = shorten(&chars, at);
    }
    out
}

/// The first `n` characters of a text and an ellipsis.
fn shorten(chars: &Vec<char>, n: usize) -> (out: String)
    requires
        n <= chars@.len(),
    ensures
        out@ == shortened(chars@, n as int),
{
    let mut out: String = slice_text(chars, 0, n);
    assert(chars@.subrange(0, n as int) =~= chars@.take(n as int));
    out.push('…');
    out
}

proof fn cells_only_add(s: Seq<char>, n: int)
    requires
        0 <= n <= s.len(),
    ensures
        cells_of_all(s.take(n)) <= cells_of_all(s),
    decreases s.len(),
{
    if n == s.len() {
        assert(s.take(n) =~= s);
    } else {
        assert(s.take(n) =~= s.drop_last().take(n));
        cells_only_add(s.drop_last(), n);
    }
}

/// Truncation never overruns: what is kept of a text and the ellipsis behind it
/// measure no more than the width, and no character kept would have to be split.
pub proof fn a_cut_leaves_room_for_the_ellipsis(value: Seq<char>, width: int)
    requires
        cells(value) > width > 0,
        cells(seq!['…']) == 1,
    ensures
        cells(cut(value, width)) <= width,
        cut(value, width).len() > 0,
        cut(value, width).last() == '…',
        cells_of_all(cut(value, width).drop_last()) <= width - 1,
        cut(value, width).drop_last().is_prefix_of(value),
{
    let most = fitting(value, width - 1);
    fitting_is_within(value, width - 1);
    measuring_is_within(value, most, width);
    let n = measuring(value, most, width) as int;
    assert(cut(value, width).drop_last() =~= value.take(n));
    assert(value.take(most as int).take(n) =~= value.take(n));
    cells_only_add(value.take(most as int), n);
}

/// `n` spaces.
pub open spec fn spaces(n: int) -> Seq<char> {
    Seq::new(
        (if n > 0 {
            n
        } else {
            0
        }) as nat,
        |i: int| ' ',
    )
}

/// Write `n` spaces behind a text.
fn space(out: &mut String, n: usize)
    ensures
        final(out)@ == old(out)@ + spaces(n as int),
{
    let ghost was = out@;
    let mut i: usize = 0;
    assert(was + spaces(0) =~= was);
    while i < n
        invariant
            i <= n,
            out@ == was + spaces(i as int),
        decreases n - i,
    {
        out.push(' ');
        i += 1;
        assert(out@ =~= was + spaces(i as int));
    }
}

/// A text with spaces behind it, up to `width` cells.
pub open spec fn padded(value: Seq<char>, width: int) -> Seq<char> {
    value + spaces(width - cells(value))
}

/// Pad a text with spaces to `width` cells.
pub fn pad_end(value: &str, width: usize) -> (out: String)
    ensures
        out@ == padded(value@, width as int),
{
    let mut out: String = value.to_owned();
    let have: usize = width_of(value);
    if have < width {
        space(&mut out, width - have);
    } else {
        assert(out@ + spaces(width - have) =~= out@);
    }
    out
}

/// The widest of these texts, in cells.
pub open spec fn widest(texts: Seq<Seq<char>>) -> nat
    decreases texts.len(),
{
    if texts.len() == 0 {
        0
    } else {
        let before = widest(texts.drop_last());
        if cells(texts.last()) > before {
            cells(texts.last())
        } else {
            before
        }
    }
}

/// The names of chats.
pub open spec fn names(chats: Seq<Chat>) -> Seq<Seq<char>> {
    Seq::new(chats.len(), |i: int| chats[i].name@)
}

/// How many cells the column of names gets at most.
pub const NAME_CELLS: usize = 38;

/// How many cells the column of names gets.
pub open spec fn name_column(chats: Seq<Chat>) -> int {
    if widest(names(chats)) < NAME_CELLS {
        widest(names(chats)) as int
    } else {
        NAME_CELLS as int
    }
}

/// A rowid in a column of five, at the right of it.
pub open spec fn rowid_column(rowid: int) -> Seq<char> {
    spaces(5 - text::decimal(rowid).len()) + text::decimal(rowid)
}

/// What kind of conversation a chat is.
pub open spec fn kind(chat: Chat) -> Seq<char> {
    if chat.is_group {
        text::decimal(chat.member_count as int) + " people"@
    } else {
        "direct"@
    }
}

/// One row of the table of chats.
pub open spec fn row(chat: Chat, age: Seq<char>, name_cells: int, age_cells: int) -> Seq<char> {
    rowid_column(chat.rowid as int) + "  "@ + padded(cut(chat.name@, name_cells), name_cells)
        + "  "@ + padded(age, age_cells) + "  "@ + kind(chat) + "\n"@
}

/// The first `n` rows of the table of chats.
pub open spec fn rows(chats: Seq<Chat>, ages: Seq<Seq<char>>, n: int) -> Seq<char>
    decreases n,
{
    if n <= 0 {
        Seq::<char>::empty()
    } else {
        rows(chats, ages, n - 1) + row(
            chats[n - 1],
            ages[n - 1],
            name_column(chats),
            widest(ages) as int,
        )
    }
}

/// The table of chats, with how long ago each was active.
pub open spec fn table(chats: Seq<Chat>, ages: Seq<Seq<char>>) -> Seq<char> {
    if chats.len() == 0 {
        "no chats found\n"@
    } else {
        rows(chats, ages, chats.len() as int)
    }
}

/// One row of the table of chats.
fn row_of(chat: &Chat, age: &str, name_cells: usize, age_cells: usize) -> (out: String)
    ensures
        out@ == row(*chat, age@, name_cells as int, age_cells as int),
{
    let rowid = decimal_of(chat.rowid);
    let digits: usize = chars_of(rowid.as_str()).len();
    let mut out: String = String::new();
    if digits < 5 {
        space(&mut out, 5 - digits);
    }
    assert(out@ =~= spaces(5 - digits));
    out.append(rowid.as_str());
    out.append("  ");
    out.append(pad_end(truncate(chat.name.as_str(), name_cells).as_str(), name_cells).as_str());
    out.append("  ");
    out.append(pad_end(age, age_cells).as_str());
    out.append("  ");
    if chat.is_group {
        out.append(counted(chat.member_count, " people").as_str());
    } else {
        out.append("direct");
    }
    out.append("\n");
    out
}

/// The table of chats, with how long ago each was active.
pub fn render_table(chats: &[Chat], ages: &[String]) -> (out: String)
    requires
        chats@.len() == ages@.len(),
    ensures
        out@ == table(chats@, text::all_of(ages@)),
{
    if chats.len() == 0 {
        return "no chats found\n".to_owned();
    }
    let ghost called = names(chats@);
    let ghost aged = text::all_of(ages@);
    let mut name_cells: usize = 0;
    let mut age_cells: usize = 0;
    for i in 0..chats.len()
        invariant
            chats@.len() == ages@.len(),
            called == names(chats@),
            aged == text::all_of(ages@),
            name_cells == widest(called.take(i as int)),
            age_cells == widest(aged.take(i as int)),
    {
        proof {
            assert(called.take(i + 1).drop_last() =~= called.take(i as int));
            assert(aged.take(i + 1).drop_last() =~= aged.take(i as int));
        }
        let name: usize = width_of(chats[i].name.as_str());
        let age: usize = width_of(ages[i].as_str());
        if name > name_cells {
            name_cells = name;
        }
        if age > age_cells {
            age_cells = age;
        }
    }
    assert(called.take(called.len() as int) =~= called);
    assert(aged.take(aged.len() as int) =~= aged);
    if name_cells > NAME_CELLS {
        name_cells = NAME_CELLS;
    }
    let mut out: String = String::new();
    for i in 0..chats.len()
        invariant
            chats@.len() == ages@.len(),
            aged == text::all_of(ages@),
            name_cells == name_column(chats@),
            age_cells == widest(aged),
            out@ == rows(chats@, aged, i as int),
    {
        out.append(row_of(&chats[i], ages[i].as_str(), name_cells, age_cells).as_str());
    }
    out
}

/// The table of chats, as of now.
pub fn render_chats(chats: &[Chat]) -> (out: String)
    requires
        forall|i: int|
            0 <= i < chats@.len() && (#[trigger] chats@[i]).last_date is Some ==> displayable(
                chats@[i].last_date->0 as int,
            ),
    ensures
        exists|ages: Seq<Seq<char>>|
            {
                &&& ages.len() == chats@.len()
                &&& forall|i: int|
                    0 <= i < ages.len() ==> reads_as_age(chats@[i].last_date, #[trigger] ages[i])
                &&& out@ == #[trigger] table(chats@, ages)
            },
{
    let mut ages: Vec<String> = Vec::new();
    for i in 0..chats.len()
        invariant
            forall|i: int|
                0 <= i < chats@.len() && (#[trigger] chats@[i]).last_date is Some ==> displayable(
                    chats@[i].last_date->0 as int,
                ),
            ages@.len() == i,
            forall|j: int|
                0 <= j < ages@.len() ==> reads_as_age(
                    chats@[j].last_date,
                    (#[trigger] ages@[j])@,
                ),
    {
        ages.push(relative_age(chats[i].last_date));
    }
    let ghost aged = text::all_of(ages@);
    assert forall|i: int| 0 <= i < aged.len() implies reads_as_age(
        chats@[i].last_date,
        #[trigger] aged[i],
    ) by {
        assert(aged[i] == ages@[i]@);
    }
    render_table(chats, &ages)
}

/// How reactions render on the messages they trail.
///
/// `Off` exactly when reactions are shown as messages of their own: printing
/// both is the same information twice. `Named` names each one's sender.
#[derive(Debug, Clone, Copy, PartialEq, Eq, Structural)]
pub enum Trail {
    Off,
    Symbols,
    Named,
}

/// How a list of messages is rendered.
#[derive(Debug, Clone, Copy, PartialEq, Eq, Structural)]
pub struct Render {
    /// Prefix each line with its conversation, for output that interleaves
    /// several.
    pub show_chat: bool,
    pub trail: Trail,
    /// A day line when the local day changes, and only a time on each message.
    pub day_headers: bool,
    /// Wrap each day line in ANSI bold, and fold newlines to a gray mark.
    pub styled: bool,
}

impl Render {
    /// How a command's messages are rendered. Reactions trail what they are on
    /// unless they are messages of their own, so none is shown twice; and a list
    /// that interleaves conversations, which is no transcript of a day, has no day
    /// lines.
    pub fn of(show_chat: bool, tapbacks: bool, styled: bool) -> (out: Self)
        ensures
            out.show_chat == show_chat,
            out.trail == (if tapbacks {
                Trail::Off
            } else {
                Trail::Symbols
            }),
            out.day_headers == !show_chat,
            out.styled == styled,
    {
        let trail = if tapbacks {
            Trail::Off
        } else {
            Trail::Symbols
        };
        Render { show_chat, trail, day_headers: !show_chat, styled }
    }
}

/// Whether bold may be written: someone is looking, and nobody asked for plain.
/// `NO_COLOR` present and non-empty refuses styling; `TERM=dumb` is the older
/// form of the same request.
pub fn styling_allowed(no_color: Option<&str>, term: Option<&str>, is_tty: bool) -> (yes: bool)
    ensures
        yes == (is_tty && !(no_color is Some && no_color->0@.len() > 0) && !(term is Some
            && term->0@ == "dumb"@)),
{
    if let Some(value) = no_color {
        if !value.is_empty() {
            return false;
        }
    }
    if let Some(value) = term {
        if text::same(value, "dumb") {
            return false;
        }
    }
    is_tty
}

/// The date line of a transcript: relative words while they are unambiguous,
/// then the date with its weekday, and the year only when it is not this one.
pub open spec fn headed(clock: i64, now: i64) -> Seq<char> {
    let days = day(now as int) - day(clock as int);
    if days == 0 {
        "Today"@
    } else if days == 1 {
        "Yesterday"@
    } else if 2 <= days <= 6 {
        strftime(clock, WEEKDAY@)
    } else if year(clock) == year(now) {
        strftime(clock, DATE@)
    } else {
        strftime(clock, FULL_DATE@)
    }
}

/// The date line of a transcript.
pub fn day_header(clock: i64, now: i64) -> (out: String)
    requires
        iso::in_calendar(clock as int),
        iso::in_calendar(now as int),
    ensures
        out@ == headed(clock, now),
{
    let days: i64 = day_of(now) - day_of(clock);
    if days == 0 {
        "Today".to_owned()
    } else if days == 1 {
        "Yesterday".to_owned()
    } else if 2 <= days && days <= 6 {
        written(clock, WEEKDAY)
    } else if year_of(clock) == year_of(now) {
        written(clock, DATE)
    } else {
        written(clock, FULL_DATE)
    }
}

/// U+FE0F, which promotes a text character to an emoji.
pub const EMOJI_PRESENTATION: char = '\u{fe0f}';

/// A symbol with the extra space it needs where the terminal draws over ours: one
/// promoted to an emoji is allocated one column and drawn two wide.
pub open spec fn symbol(s: Seq<char>) -> Seq<char> {
    if s.contains(EMOJI_PRESENTATION) {
        s + " "@
    } else {
        s
    }
}

/// A symbol with the extra space it needs.
fn spilled(s: &str) -> (out: String)
    ensures
        out@ == symbol(s@),
{
    let mut out: String = s.to_owned();
    if has_char(&chars_of(s), EMOJI_PRESENTATION) {
        out.append(" ");
    }
    out
}

/// Line endings of every kind as one newline each.
pub open spec fn unified(s: Seq<char>) -> Seq<char>
    decreases s.len(),
{
    if s.len() == 0 {
        Seq::<char>::empty()
    } else if s.last() == '\n' && s.len() > 1 && s[s.len() - 2] == '\r' {
        unified(s.take(s.len() - 2)).push('\n')
    } else if s.last() == '\n' || s.last() == '\r' {
        unified(s.drop_last()).push('\n')
    } else {
        unified(s.drop_last()).push(s.last())
    }
}

/// A text without the newlines at its end.
pub open spec fn without_trailing(s: Seq<char>) -> Seq<char>
    decreases s.len(),
{
    if s.len() > 0 && s.last() == '\n' {
        without_trailing(s.drop_last())
    } else {
        s
    }
}

/// A text with each newline made a mark.
pub open spec fn marked(s: Seq<char>, mark: Seq<char>) -> Seq<char>
    decreases s.len(),
{
    if s.len() == 0 {
        Seq::<char>::empty()
    } else if s.last() == '\n' {
        marked(s.drop_last(), mark) + mark
    } else {
        marked(s.drop_last(), mark).push(s.last())
    }
}

/// The mark a newline inside a body becomes, gray where styling is on.
pub open spec fn mark(styled: bool) -> Seq<char> {
    if styled {
        "\x1b[90m↵\x1b[0m"@
    } else {
        "↵"@
    }
}

/// A body as one line.
pub open spec fn folded(s: Seq<char>, styled: bool) -> Seq<char> {
    marked(without_trailing(unified(s)), mark(styled))
}

/// Line endings of every kind as one newline each.
fn unify(s: &[char]) -> (out: Vec<char>)
    ensures
        out@ == unified(s@),
{
    let mut out: Vec<char> = Vec::new();
    let mut at: usize = 0;
    assert(s@.take(0) =~= Seq::<char>::empty());
    while at < s.len()
        invariant
            at <= s@.len(),
            out@ == unified(s@.take(at as int)),
            at < s@.len() && s@[at as int] == '\n' ==> at == 0 || s@[at - 1] != '\r',
        decreases s@.len() - at,
    {
        proof {
            let next = s@.take(at + 1);
            assert(next.drop_last() =~= s@.take(at as int));
            assert(next.last() == s@[at as int]);
            if at > 0 {
                assert(next[next.len() - 2] == s@[at - 1]);
            }
        }
        if s[at] == '\r' && at + 1 < s.len() && s[at + 1] == '\n' {
            proof {
                let both = s@.take(at + 2);
                assert(both.take(both.len() - 2) =~= s@.take(at as int));
                assert(both.last() == '\n');
                assert(both[both.len() - 2] == '\r');
            }
            out.push('\n');
            at += 2;
        } else if s[at] == '\r' || s[at] == '\n' {
            out.push('\n');
            at += 1;
        } else {
            out.push(s[at]);
            at += 1;
        }
    }
    assert(s@.take(at as int) =~= s@);
    out
}

/// One message, one line: a newline inside a body becomes a visible mark instead
/// of breaking the transcript's line-per-message shape. A trailing run of
/// newlines is trimmed rather than drawn.
pub fn one_line(text: &str, styled: bool) -> (out: String)
    ensures
        out@ == folded(text@, styled),
{
    let whole = unify(&chars_of(text));
    let mut end: usize = whole.len();
    assert(whole@.take(end as int) =~= whole@);
    while end > 0 && whole[end - 1] == '\n'
        invariant
            end <= whole@.len(),
            without_trailing(whole@) == without_trailing(whole@.take(end as int)),
        decreases end,
    {
        assert(whole@.take(end as int).drop_last() =~= whole@.take(end - 1));
        end -= 1;
    }
    let ghost kept = whole@.take(end as int);
    assert(kept == without_trailing(whole@));
    let mut out: String = String::new();
    let mut at: usize = 0;
    while at < end
        invariant
            at <= end <= whole@.len(),
            kept == whole@.take(end as int),
            out@ == marked(kept.take(at as int), mark(styled)),
        decreases end - at,
    {
        proof {
            assert(kept.take(at + 1).drop_last() =~= kept.take(at as int));
        }
        if whole[at] == '\n' {
            if styled {
                out.append("\x1b[90m↵\x1b[0m");
            } else {
                out.append("↵");
            }
        } else {
            out.push(whole[at]);
        }
        at += 1;
    }
    assert(kept.take(end as int) =~= kept);
    out
}

proof fn unified_has_no_return(s: Seq<char>)
    ensures
        !unified(s).contains('\r'),
    decreases s.len(),
{
    if s.len() > 0 {
        if s.last() == '\n' && s.len() > 1 && s[s.len() - 2] == '\r' {
            unified_has_no_return(s.take(s.len() - 2));
        } else {
            unified_has_no_return(s.drop_last());
        }
    }
}

proof fn trailing_is_part(s: Seq<char>)
    ensures
        without_trailing(s).is_prefix_of(s),
    decreases s.len(),
{
    if s.len() > 0 && s.last() == '\n' {
        trailing_is_part(s.drop_last());
    }
}

proof fn marked_is_one_line(s: Seq<char>, styled: bool)
    requires
        !s.contains('\r'),
    ensures
        !marked(s, mark(styled)).contains('\n'),
        !marked(s, mark(styled)).contains('\r'),
    decreases s.len(),
{
    reveal_strlit("\x1b[90m↵\x1b[0m");
    reveal_strlit("↵");
    if s.len() > 0 {
        let rest = s.drop_last();
        assert(!rest.contains('\r')) by {
            if rest.contains('\r') {
                let i = choose|i: int| 0 <= i < rest.len() && rest[i] == '\r';
                assert(s[i] == '\r');
            }
        }
        marked_is_one_line(rest, styled);
        assert(s[s.len() - 1] != '\r');
        let before = marked(rest, mark(styled));
        let out = marked(s, mark(styled));
        assert forall|i: int| 0 <= i < out.len() implies out[i] != '\n' && out[i] != '\r' by {
            if i < before.len() {
                assert(before.contains(before[i]));
            }
        }
    }
}

/// However a body was typed, it is one line of a transcript.
pub proof fn a_body_is_one_line(s: Seq<char>, styled: bool)
    ensures
        !folded(s, styled).contains('\n'),
        !folded(s, styled).contains('\r'),
{
    unified_has_no_return(s);
    let whole = unified(s);
    trailing_is_part(whole);
    let kept = without_trailing(whole);
    assert(!kept.contains('\r')) by {
        if kept.contains('\r') {
            let i = choose|i: int| 0 <= i < kept.len() && kept[i] == '\r';
            assert(whole[i] == '\r');
        }
    }
    marked_is_one_line(kept, styled);
}

/// Who reacted: me, a name, an address, or nobody that can be named.
pub open spec fn reactor(tapback: Tapback) -> Seq<char> {
    if tapback.is_from_me {
        "me"@
    } else {
        match (tapback.contact_name, tapback.handle) {
            (Some(name), _) => name@,
            (None, Some(handle)) => handle@,
            (None, None) => "unknown"@,
        }
    }
}

/// Each reaction with its sender beside it.
pub open spec fn named_reactions(tapbacks: Seq<Tapback>) -> Seq<Seq<char>> {
    Seq::new(tapbacks.len(), |i: int| symbol(tapbacks[i].symbol@) + " "@ + reactor(tapbacks[i]))
}

/// The symbols of reactions, one after another.
pub open spec fn symbols(tapbacks: Seq<Tapback>) -> Seq<char>
    decreases tapbacks.len(),
{
    if tapbacks.len() == 0 {
        Seq::<char>::empty()
    } else {
        symbols(tapbacks.drop_last()) + symbol(tapbacks.last().symbol@)
    }
}

/// What trails a message: its reactions after an arrow, oldest first.
pub open spec fn trailing(tapbacks: Seq<Tapback>, trail: Trail) -> Seq<char> {
    if trail == Trail::Off || tapbacks.len() == 0 {
        Seq::<char>::empty()
    } else if trail == Trail::Named {
        " ← "@ + text::join(named_reactions(tapbacks), ", "@)
    } else {
        " ← "@ + text::trim_end(symbols(tapbacks))
    }
}

/// What trails a message.
fn trail_of(tapbacks: &Vec<Tapback>, trail: Trail) -> (out: String)
    ensures
        out@ == trailing(tapbacks@, trail),
{
    if trail == Trail::Off || tapbacks.len() == 0 {
        return String::new();
    }
    let mut out: String = " ← ".to_owned();
    if trail == Trail::Named {
        let mut all: Vec<String> = Vec::new();
        for i in 0..tapbacks.len()
            invariant
                text::all_of(all@) == named_reactions(tapbacks@).take(i as int),
        {
            let tapback = &tapbacks[i];
            let ghost before = text::all_of(all@);
            let mut one = spilled(tapback.symbol.as_str());
            one.append(" ");
            if tapback.is_from_me {
                one.append("me");
            } else if let Some(name) = &tapback.contact_name {
                one.append(name.as_str());
            } else if let Some(handle) = &tapback.handle {
                one.append(handle.as_str());
            } else {
                one.append("unknown");
            }
            assert(one@ == named_reactions(tapbacks@)[i as int]);
            let ghost added = one@;
            all.push(one);
            assert(text::all_of(all@) =~= before.push(added));
            assert(before.push(added) =~= named_reactions(tapbacks@).take(i + 1));
        }
        assert(named_reactions(tapbacks@).take(tapbacks@.len() as int) =~= named_reactions(
            tapbacks@,
        ));
        out.append(joined(&all, ", ").as_str());
    } else {
        let mut all: String = String::new();
        for i in 0..tapbacks.len()
            invariant
                all@ == symbols(tapbacks@.take(i as int)),
        {
            assert(tapbacks@.take(i + 1).drop_last() =~= tapbacks@.take(i as int));
            all.append(spilled(tapbacks[i].symbol.as_str()).as_str());
        }
        assert(tapbacks@.take(tapbacks@.len() as int) =~= tapbacks@);
        let kept = trim_text_end(&chars_of(all.as_str()));
        out.append(text_of(&kept).as_str());
    }
    out
}

/// What stands before a line: two columns where context was asked for, and
/// nothing otherwise.
pub open spec fn gutter(in_context: bool, matched: bool) -> Seq<char> {
    if !in_context {
        Seq::<char>::empty()
    } else if matched {
        "> "@
    } else {
        "  "@
    }
}

/// How a message is stamped.
pub open spec fn stamp(options: Render, clock: Option<i64>, now: i64) -> Seq<char> {
    if options.day_headers {
        match clock {
            Some(clock) => strftime(clock, TIME@),
            None => Seq::<char>::empty(),
        }
    } else {
        timestamp(clock, now)
    }
}

/// The conversation a line belongs to, where lines of several are mixed.
pub open spec fn whereabouts(options: Render, message: Message) -> Seq<char> {
    match (options.show_chat, message.chat_name) {
        (true, Some(name)) => "["@ + name@ + "] "@,
        _ => Seq::<char>::empty(),
    }
}

/// A text that may be missing, as a reader sees it.
pub open spec fn or_no_text(text: Option<String>) -> Seq<char> {
    match text {
        Some(text) => text@,
        None => "(no text)"@,
    }
}

/// The line above a reply that says what it answers, indented to the width of a
/// stamp.
pub open spec fn answering(message: Message, gutter: Seq<char>, stamp: Seq<char>) -> Seq<char> {
    match message.reply_to {
        Some(reply) => gutter + spaces(stamp.len() as int) + "  ↳ replying to "@ + reply.sender@
            + ": "@ + or_no_text(reply.excerpt) + "\n"@,
        None => Seq::<char>::empty(),
    }
}

/// The lines of one message: what it answers, and then the message itself.
pub open spec fn lines(
    message: Message,
    options: Render,
    in_context: bool,
    clock: Option<i64>,
    now: i64,
) -> Seq<char> {
    let gutter = gutter(in_context, message.matched);
    let stamp = stamp(options, clock, now);
    answering(message, gutter, stamp) + gutter + stamp + "  "@ + whereabouts(options, message)
        + message.sender@ + ": "@ + folded(or_no_text(message.body), options.styled) + trailing(
        message.tapbacks@,
        options.trail,
    ) + "\n"@
}

/// A day line, bold where styling is on.
pub open spec fn day_line(clock: i64, now: i64, styled: bool) -> Seq<char> {
    if styled {
        "\x1b[1m"@ + headed(clock, now) + "\x1b[0m\n"@
    } else {
        headed(clock, now) + "\n"@
    }
}

/// Context was asked for: some message belongs to a run.
pub open spec fn in_runs(messages: Seq<Message>) -> bool {
    exists|i: int| 0 <= i < messages.len() && (#[trigger] messages[i]).group is Some
}

/// A transcript so far: what is written, the run it is in, and the day it is on.
#[verifier::ext_equal]
pub struct Drawn {
    pub text: Seq<char>,
    pub run: Option<i64>,
    pub day: Option<int>,
}

/// The day a message opens, where it is not the one the transcript is on.
pub open spec fn opens_day(options: Render, day_on: Option<int>, clock: Option<i64>) -> bool {
    options.day_headers && clock is Some && day_on != Some(day(clock->0 as int))
}

/// What one more message adds to a transcript.
pub open spec fn drawn_next(
    so_far: Drawn,
    message: Message,
    options: Render,
    in_context: bool,
    clock: Option<i64>,
    now: i64,
) -> Drawn {
    let parted = if in_context && message.group is Some && so_far.run is Some && so_far.run
        != message.group {
        "--\n"@
    } else {
        Seq::<char>::empty()
    };
    let header = if opens_day(options, so_far.day, clock) {
        day_line(clock->0, now, options.styled)
    } else {
        Seq::<char>::empty()
    };
    Drawn {
        text: so_far.text + parted + header + lines(message, options, in_context, clock, now),
        run: if in_context {
            message.group
        } else {
            so_far.run
        },
        day: if opens_day(options, so_far.day, clock) {
            Some(day(clock->0 as int))
        } else {
            so_far.day
        },
    }
}

/// The first `n` messages drawn, from a transcript that was on `day_on`.
pub open spec fn drawn(
    messages: Seq<Message>,
    clocks: Seq<Option<i64>>,
    now: i64,
    options: Render,
    day_on: Option<int>,
    n: int,
) -> Drawn
    decreases n,
{
    if n <= 0 {
        Drawn { text: Seq::<char>::empty(), run: None, day: day_on }
    } else {
        drawn_next(
            drawn(messages, clocks, now, options, day_on, n - 1),
            messages[n - 1],
            options,
            in_runs(messages),
            clocks[n - 1],
            now,
        )
    }
}

/// A transcript, and the day it ends on.
pub open spec fn transcript(
    messages: Seq<Message>,
    clocks: Seq<Option<i64>>,
    now: i64,
    options: Render,
    day_on: Option<int>,
) -> Drawn {
    if messages.len() == 0 {
        Drawn { text: "no messages found\n"@, run: None, day: day_on }
    } else {
        drawn(messages, clocks, now, options, day_on, messages.len() as int)
    }
}

/// The lines of one message.
fn lines_of(
    message: &Message,
    options: Render,
    in_context: bool,
    clock: Option<i64>,
    now: i64,
) -> (out: String)
    requires
        clock is Some ==> iso::in_calendar(clock->0 as int),
    ensures
        out@ == lines(*message, options, in_context, clock, now),
{
    let gutter: &str = if !in_context {
        ""
    } else if message.matched {
        "> "
    } else {
        "  "
    };
    proof {
        reveal_strlit("");
        assert(gutter@ =~= self::gutter(in_context, message.matched));
    }
    let stamp: String = if options.day_headers {
        match clock {
            Some(clock) => written(clock, TIME),
            None => String::new(),
        }
    } else {
        timestamp_at(clock, now)
    };
    let ghost stamped = stamp@;
    let mut out: String = String::new();
    if let Some(reply) = &message.reply_to {
        out.append(gutter);
        space(&mut out, chars_of(stamp.as_str()).len());
        out.append("  ↳ replying to ");
        out.append(reply.sender.as_str());
        out.append(": ");
        match &reply.excerpt {
            Some(excerpt) => out.append(excerpt.as_str()),
            None => out.append("(no text)"),
        }
        out.append("\n");
    }
    assert(out@ =~= answering(*message, self::gutter(in_context, message.matched), stamped));
    out.append(gutter);
    out.append(stamp.as_str());
    out.append("  ");
    let ghost before = out@;
    if options.show_chat {
        if let Some(name) = &message.chat_name {
            out.append("[");
            out.append(name.as_str());
            out.append("] ");
        }
    }
    assert(out@ =~= before + whereabouts(options, *message));
    out.append(message.sender.as_str());
    out.append(": ");
    let body: String = match &message.body {
        Some(body) => one_line(body.as_str(), options.styled),
        None => one_line("(no text)", options.styled),
    };
    out.append(body.as_str());
    out.append(trail_of(&message.tapbacks, options.trail).as_str());
    out.append("\n");
    out
}

/// Whether context was asked for.
fn any_in_runs(messages: &[Message]) -> (yes: bool)
    ensures
        yes == in_runs(messages@),
{
    for i in 0..messages.len()
        invariant
            forall|j: int| 0 <= j < i ==> (#[trigger] messages@[j]).group is None,
    {
        if messages[i].group.is_some() {
            return true;
        }
    }
    false
}

/// Rendering with the day held between calls, so that a stream which prints one
/// message at a time still heads a change of day.
#[derive(Debug)]
pub struct Renderer {
    pub options: Render,
    /// The day last headed, counted from the epoch.
    pub last_day: Option<i64>,
}

/// A day, counted from the epoch.
pub open spec fn as_day(day: Option<i64>) -> Option<int> {
    match day {
        Some(day) => Some(day as int),
        None => None,
    }
}

/// Clock readings for each message, of some machine.
pub open spec fn clocked(messages: Seq<Message>, clocks: Seq<Option<i64>>) -> bool {
    &&& clocks.len() == messages.len()
    &&& forall|i: int|
        0 <= i < messages.len() ==> shows((#[trigger] messages[i]).date, clocks[i])
}

impl Renderer {
    /// Nothing headed yet.
    pub fn new(options: Render) -> (out: Self)
        ensures
            out.options == options,
            out.last_day is None,
    {
        Renderer { options, last_day: None }
    }

    /// Render messages, given what the clock on the wall shows at each of them
    /// and what it shows now.
    pub fn render_at(&mut self, messages: &[Message], clocks: &[Option<i64>], now: i64) -> (out:
        String)
        requires
            messages@.len() == clocks@.len(),
            iso::in_calendar(now as int),
            forall|i: int|
                0 <= i < clocks@.len() && (#[trigger] clocks@[i]) is Some ==> iso::in_calendar(
                    clocks@[i]->0 as int,
                ),
        ensures
            final(self).options == old(self).options,
            out@ == transcript(
                messages@,
                clocks@,
                now,
                old(self).options,
                as_day(old(self).last_day),
            ).text,
            as_day(final(self).last_day) == transcript(
                messages@,
                clocks@,
                now,
                old(self).options,
                as_day(old(self).last_day),
            ).day,
    {
        if messages.len() == 0 {
            return "no messages found\n".to_owned();
        }
        let options: Render = self.options;
        let ghost day_on = as_day(self.last_day);
        let in_context = any_in_runs(messages);
        let mut out: String = String::new();
        let mut run: Option<i64> = None;
        let mut last_day: Option<i64> = self.last_day;
        for i in 0..messages.len()
            invariant
                messages@.len() == clocks@.len(),
                iso::in_calendar(now as int),
                forall|i: int|
                    0 <= i < clocks@.len() && (#[trigger] clocks@[i]) is Some ==> iso::in_calendar(
                        clocks@[i]->0 as int,
                    ),
                in_context == in_runs(messages@),
                (Drawn { text: out@, run, day: as_day(last_day) }) == drawn(
                    messages@,
                    clocks@,
                    now,
                    options,
                    day_on,
                    i as int,
                ),
        {
            let message = &messages[i];
            let clock: Option<i64> = clocks[i];
            let ghost was = Drawn { text: out@, run, day: as_day(last_day) };
            let ghost mut parted = Seq::<char>::empty();
            let ghost mut header = Seq::<char>::empty();
            if in_context {
                if let (Some(group), Some(open)) = (message.group, run) {
                    if open != group {
                        out.append("--\n");
                        proof {
                            parted = "--\n"@;
                        }
                    }
                }
                run = message.group;
            }
            assert(out@ =~= was.text + parted);
            if options.day_headers {
                if let Some(clock) = clock {
                    let today: i64 = day_of(clock);
                    let same = match last_day {
                        Some(on) => on == today,
                        None => false,
                    };
                    if !same {
                        proof {
                            header = day_line(clock, now, options.styled);
                        }
                        if options.styled {
                            out.append("\x1b[1m");
                            out.append(day_header(clock, now).as_str());
                            out.append("\x1b[0m\n");
                        } else {
                            out.append(day_header(clock, now).as_str());
                            out.append("\n");
                        }
                        last_day = Some(today);
                    }
                }
            }
            assert(out@ =~= was.text + parted + header);
            out.append(lines_of(message, options, in_context, clock, now).as_str());
            assert((Drawn { text: out@, run, day: as_day(last_day) }) =~= drawn_next(
                was,
                *message,
                options,
                in_context,
                clock,
                now,
            ));
        }
        self.last_day = last_day;
        out
    }

    /// Render messages as this machine's clock shows them.
    pub fn render(&mut self, messages: &[Message]) -> (out: String)
        requires
            forall|i: int|
                0 <= i < messages@.len() && (#[trigger] messages@[i]).date is Some ==> displayable(
                    messages@[i].date->0 as int,
                ),
        ensures
            final(self).options == old(self).options,
            exists|clocks: Seq<Option<i64>>, now: i64|
                {
                    let whole = #[trigger] transcript(
                        messages@,
                        clocks,
                        now,
                        old(self).options,
                        as_day(old(self).last_day),
                    );
                    &&& clocked(messages@, clocks)
                    &&& out@ == whole.text
                    &&& as_day(final(self).last_day) == whole.day
                },
    {
        let mut clocks: Vec<Option<i64>> = Vec::new();
        for i in 0..messages.len()
            invariant
                forall|i: int|
                    0 <= i < messages@.len() && (#[trigger] messages@[i]).date is Some
                        ==> displayable(messages@[i].date->0 as int),
                clocks@.len() == i,
                forall|j: int| 0 <= j < i ==> shows((#[trigger] messages@[j]).date, clocks@[j]),
        {
            clocks.push(clock_at(messages[i].date));
        }
        let now: i64 = clock_now();
        assert forall|i: int| 0 <= i < clocks@.len() && (#[trigger] clocks@[i]) is Some implies
            iso::in_calendar(clocks@[i]->0 as int) by {
            assert(shows(messages@[i].date, clocks@[i]));
        }
        assert(clocked(messages@, clocks@));
        let out = self.render_at(messages, &clocks, now);
        out
    }
}

/// Render a batch of messages on their own.
pub fn render_messages(messages: &[Message], options: Render) -> (out: String)
    requires
        forall|i: int|
            0 <= i < messages@.len() && (#[trigger] messages@[i]).date is Some ==> displayable(
                messages@[i].date->0 as int,
            ),
    ensures
        exists|clocks: Seq<Option<i64>>, now: i64|
            clocked(messages@, clocks) && out@ == #[trigger] transcript(
                messages@,
                clocks,
                now,
                options,
                None,
            ).text,
{
    let mut renderer = Renderer::new(options);
    renderer.render(messages)
}

/// A stream headed one message at a time reads as the same messages in one go:
/// the day is all that has to be held between calls.
pub proof fn a_stream_reads_as_a_batch(
    messages: Seq<Message>,
    clocks: Seq<Option<i64>>,
    now: i64,
    options: Render,
    day_on: Option<int>,
    n: int,
)
    requires
        messages.len() == clocks.len(),
        0 < n < messages.len(),
        !in_runs(messages),
    ensures
        ({
            let first = transcript(messages.take(n), clocks.take(n), now, options, day_on);
            let rest = transcript(messages.skip(n), clocks.skip(n), now, options, first.day);
            let whole = transcript(messages, clocks, now, options, day_on);
            whole.text == first.text + rest.text && whole.day == rest.day
        }),
{
    let first = transcript(messages.take(n), clocks.take(n), now, options, day_on);
    assert(!in_runs(messages.take(n))) by {
        assert forall|i: int| 0 <= i < n implies (#[trigger] messages.take(n)[i]).group is None by {
            assert(messages[i].group is None);
        }
    }
    assert(!in_runs(messages.skip(n))) by {
        assert forall|i: int|
            0 <= i < messages.len() - n implies (#[trigger] messages.skip(n)[i]).group is None by {
            assert(messages[i + n].group is None);
        }
    }
    drawn_of_front(messages, clocks, now, options, day_on, n, n);
    drawn_of_back(messages, clocks, now, options, day_on, n, messages.len() - n);
}

proof fn drawn_of_front(
    messages: Seq<Message>,
    clocks: Seq<Option<i64>>,
    now: i64,
    options: Render,
    day_on: Option<int>,
    n: int,
    i: int,
)
    requires
        messages.len() == clocks.len(),
        0 <= i <= n <= messages.len(),
        !in_runs(messages),
        !in_runs(messages.take(n)),
    ensures
        drawn(messages.take(n), clocks.take(n), now, options, day_on, i) == drawn(
            messages,
            clocks,
            now,
            options,
            day_on,
            i,
        ),
    decreases i,
{
    if i > 0 {
        drawn_of_front(messages, clocks, now, options, day_on, n, i - 1);
    }
}

proof fn drawn_of_back(
    messages: Seq<Message>,
    clocks: Seq<Option<i64>>,
    now: i64,
    options: Render,
    day_on: Option<int>,
    n: int,
    i: int,
)
    requires
        messages.len() == clocks.len(),
        0 <= n,
        0 <= i <= messages.len() - n,
        !in_runs(messages),
        !in_runs(messages.skip(n)),
    ensures
        ({
            let front = drawn(messages, clocks, now, options, day_on, n);
            let back = drawn(messages.skip(n), clocks.skip(n), now, options, front.day, i);
            let both = drawn(messages, clocks, now, options, day_on, n + i);
            both.text == front.text + back.text && both.day == back.day
        }),
    decreases i,
{
    let front = drawn(messages, clocks, now, options, day_on, n);
    if i == 0 {
        assert(front.text + Seq::<char>::empty() =~= front.text);
    } else {
        drawn_of_back(messages, clocks, now, options, day_on, n, i - 1);
        let back = drawn(messages.skip(n), clocks.skip(n), now, options, front.day, i - 1);
        let both = drawn(messages, clocks, now, options, day_on, n + i - 1);
        assert(messages.skip(n)[i - 1] == messages[n + i - 1]);
        assert(clocks.skip(n)[i - 1] == clocks[n + i - 1]);
        drawn_behind(
            front.text,
            back,
            both,
            messages[n + i - 1],
            options,
            clocks[n + i - 1],
            now,
        );
    }
}

/// What is drawn behind a text is what is drawn without it.
proof fn drawn_behind(
    front: Seq<char>,
    back: Drawn,
    both: Drawn,
    message: Message,
    options: Render,
    clock: Option<i64>,
    now: i64,
)
    requires
        both.text == front + back.text,
        both.day == back.day,
    ensures
        drawn_next(both, message, options, false, clock, now).text == front + drawn_next(
            back,
            message,
            options,
            false,
            clock,
            now,
        ).text,
        drawn_next(both, message, options, false, clock, now).day == drawn_next(
            back,
            message,
            options,
            false,
            clock,
            now,
        ).day,
{
    let one = drawn_next(both, message, options, false, clock, now).text;
    let two = drawn_next(back, message, options, false, clock, now).text;
    let header = if opens_day(options, back.day, clock) {
        day_line(clock->0, now, options.styled)
    } else {
        Seq::<char>::empty()
    };
    let added = lines(message, options, false, clock, now);
    let none = Seq::<char>::empty();
    assert(one == front + back.text + none + header + added);
    assert(two == back.text + none + header + added);
    assert(front + back.text + none + header + added =~= front + (back.text + none + header
        + added));
}

/// Nothing but spaces.
pub open spec fn blank(s: Seq<char>) -> bool {
    forall|i: int| 0 <= i < s.len() ==> #[trigger] s[i] == ' '
}

/// A text on one line.
pub open spec fn unbroken(s: Seq<char>) -> bool {
    !s.contains('\n') && !s.contains('\r')
}

proof fn unbroken_parts(s: Seq<char>)
    requires
        unbroken(s),
        s.len() > 0,
    ensures
        unbroken(s.drop_last()),
        s.last() != '\n',
        s.last() != '\r',
{
    assert(s[s.len() - 1] == s.last());
    if s.drop_last().contains('\n') {
        let i = choose|i: int| 0 <= i < s.len() - 1 && s.drop_last()[i] == '\n';
        assert(s[i] == '\n');
    }
    if s.drop_last().contains('\r') {
        let i = choose|i: int| 0 <= i < s.len() - 1 && s.drop_last()[i] == '\r';
        assert(s[i] == '\r');
    }
}

proof fn unbroken_stays(s: Seq<char>, more: Seq<char>, mark: Seq<char>)
    requires
        unbroken(more),
    ensures
        unified(s + more) == unified(s) + more,
        marked(s + more, mark) == marked(s, mark) + more,
    decreases more.len(),
{
    if more.len() == 0 {
        assert(s + more =~= s);
        assert(unified(s) + more =~= unified(s));
        assert(marked(s, mark) + more =~= marked(s, mark));
    } else {
        unbroken_parts(more);
        unbroken_stays(s, more.drop_last(), mark);
        assert((s + more).drop_last() =~= s + more.drop_last());
        assert(unified(s + more) =~= unified(s) + more);
        assert(marked(s + more, mark) =~= marked(s, mark) + more);
    }
}

/// What was said is what is shown: a body on one line is shown as it is, a line break
/// inside one, of any kind, is shown as a mark, and one at its end is not shown.
pub proof fn a_body_is_shown_as_it_is(a: Seq<char>, b: Seq<char>, styled: bool)
    requires
        unbroken(a),
        unbroken(b),
    ensures
        folded(a, styled) == a,
        b.len() > 0 ==> {
            let mark = if styled {
                "\x1b[90m↵\x1b[0m"@
            } else {
                "↵"@
            };
            &&& folded(a + "\n"@ + b, styled) == a + mark + b
            &&& folded(a + "\r"@ + b, styled) == a + mark + b
            &&& folded(a + "\r\n"@ + b, styled) == a + mark + b
        },
        folded(a + "\n"@, styled) == a,
        folded(a + "\r\n"@, styled) == a,
{
    reveal_strlit("\n");
    reveal_strlit("\r");
    reveal_strlit("\r\n");
    let none = Seq::<char>::empty();
    let m = mark(styled);
    unbroken_stays(none, a, m);
    assert(none + a =~= a);
    assert(unified(a) =~= a);
    assert(marked(a, m) =~= a);
    no_trailing_break(a);
    let n = a + "\n"@;
    let r = a + "\r"@;
    let rn = a + "\r\n"@;
    assert(n.drop_last() =~= a && r.drop_last() =~= a && rn.take(rn.len() - 2) =~= a);
    if a.len() > 0 {
        unbroken_parts(a);
        assert(n[n.len() - 2] == a.last());
        assert(r[r.len() - 2] == a.last());
    }
    assert(rn[rn.len() - 2] == '\r');
    assert(unified(n) =~= a.push('\n'));
    assert(unified(r) =~= a.push('\n'));
    assert(unified(rn) =~= a.push('\n'));
    assert(a.push('\n').drop_last() =~= a);
    assert(without_trailing(a.push('\n')) == a);
    if b.len() > 0 {
        unbroken_stays(n, b, m);
        unbroken_stays(r, b, m);
        unbroken_stays(rn, b, m);
        let whole = a.push('\n') + b;
        unbroken_parts(b);
        assert(whole.last() == b.last());
        assert(without_trailing(whole) == whole);
        unbroken_stays(a.push('\n'), b, m);
        assert(marked(a.push('\n'), m) =~= a + m);
    }
}

proof fn no_trailing_break(a: Seq<char>)
    requires
        unbroken(a),
    ensures
        without_trailing(a) == a,
{
    if a.len() > 0 {
        unbroken_parts(a);
    }
}

/// What a line of a transcript is, where nothing is answered, nothing was reacted to
/// and no context was asked for: when it was, the conversation in brackets where
/// conversations are mixed, who said it, and what they said. The time alone is enough
/// today and under a day line.
pub proof fn a_line_says_when_where_who_and_what(
    message: Message,
    options: Render,
    clock: i64,
    now: i64,
)
    requires
        message.reply_to is None,
        message.tapbacks@.len() == 0,
        message.body is Some ==> unbroken(message.body->0@),
    ensures
        ({
            let when = if options.day_headers || clock as int / 86_400_000 == now as int / 86_400_000 {
                strftime(clock, TIME@)
            } else {
                strftime(clock, DATE_TIME@)
            };
            let place = if options.show_chat && message.chat_name is Some {
                "["@ + message.chat_name->0@ + "] "@
            } else {
                Seq::<char>::empty()
            };
            let said = if message.body is Some {
                message.body->0@
            } else {
                "(no text)"@
            };
            lines(message, options, false, Some(clock), now) == when + "  "@ + place
                + message.sender@ + ": "@ + said + "\n"@
        }),
{
    reveal_strlit("(no text)");
    let said = or_no_text(message.body);
    assert(unbroken(said));
    a_body_is_shown_as_it_is(said, said, options.styled);
    let out = lines(message, options, false, Some(clock), now);
    let none = Seq::<char>::empty();
    let when = stamp(options, Some(clock), now);
    assert(none + none + when =~= when);
    assert(out =~= when + "  "@ + whereabouts(options, message) + message.sender@ + ": "@ + said
        + "\n"@);
}

/// In a context, a line is marked by whether it was searched for, and is otherwise
/// the line it is without.
pub proof fn context_marks_a_line(message: Message, options: Render, clock: Option<i64>, now: i64)
    requires
        message.reply_to is None,
    ensures
        lines(message, options, true, clock, now) == (if message.matched {
            "> "@
        } else {
            "  "@
        }) + lines(message, options, false, clock, now),
{
    let none = Seq::<char>::empty();
    let mark = gutter(true, message.matched);
    assert(lines(message, options, true, clock, now) =~= mark + lines(
        message,
        options,
        false,
        clock,
        now,
    ));
}

/// A reply is the message it is, below a line that says whose message it answers and
/// how that began.
pub proof fn a_reply_says_what_it_answers(
    message: Message,
    plain: Message,
    options: Render,
    in_context: bool,
    clock: Option<i64>,
    now: i64,
)
    requires
        message.reply_to is Some,
        plain == (Message { reply_to: None, ..message }),
    ensures
        exists|indent: Seq<char>|
            blank(indent) && lines(message, options, in_context, clock, now) == (if in_context
                && message.matched {
                "> "@
            } else {
                Seq::<char>::empty()
            }) + #[trigger] (indent + "↳ replying to "@) + message.reply_to->0.sender@ + ": "@ + (
            if message.reply_to->0.excerpt is Some {
                message.reply_to->0.excerpt->0@
            } else {
                "(no text)"@
            }) + "\n"@ + lines(plain, options, in_context, clock, now),
{
    let when = stamp(options, clock, now);
    let mark = gutter(in_context, message.matched);
    let reply = message.reply_to->0;
    let quote = answering(message, mark, when);
    let where_ = whereabouts(options, message);
    let said = folded(or_no_text(message.body), options.styled);
    let trail = trailing(message.tapbacks@, options.trail);
    regrouped(quote, mark, when, "  "@, where_, message.sender@, ": "@, said, trail, "\n"@);
    regrouped(
        Seq::<char>::empty(),
        mark,
        when,
        "  "@,
        where_,
        message.sender@,
        ": "@,
        said,
        trail,
        "\n"@,
    );
    let rest = mark + when + "  "@ + where_ + message.sender@ + ": "@ + said + trail + "\n"@;
    assert(Seq::<char>::empty() + rest =~= rest);
    assert(lines(plain, options, in_context, clock, now) == rest);
    assert(lines(message, options, in_context, clock, now) == quote + rest);
    let indent = a_quote_is_indented(
        in_context,
        message.matched,
        when,
        reply.sender@,
        or_no_text(reply.excerpt),
    );
    assert(blank(indent));
    let opening = if in_context && message.matched {
        "> "@
    } else {
        Seq::<char>::empty()
    };
    assert(quote == opening + (indent + "↳ replying to "@) + reply.sender@ + ": "@ + or_no_text(
        reply.excerpt,
    ) + "\n"@);
}

proof fn regrouped(
    q: Seq<char>,
    a: Seq<char>,
    b: Seq<char>,
    c: Seq<char>,
    d: Seq<char>,
    e: Seq<char>,
    f: Seq<char>,
    g: Seq<char>,
    h: Seq<char>,
    i: Seq<char>,
)
    ensures
        q + a + b + c + d + e + f + g + h + i == q + (a + b + c + d + e + f + g + h + i),
{
    assert(q + a + b + c =~= q + (a + b + c));
    assert(q + a + b + c + d + e =~= q + (a + b + c + d + e));
    assert(q + a + b + c + d + e + f + g =~= q + (a + b + c + d + e + f + g));
    assert(q + a + b + c + d + e + f + g + h + i =~= q + (a + b + c + d + e + f + g + h + i));
}

proof fn a_quote_is_indented(
    in_context: bool,
    matched: bool,
    when: Seq<char>,
    sender: Seq<char>,
    excerpt: Seq<char>,
) -> (indent: Seq<char>)
    ensures
        blank(indent),
        gutter(in_context, matched) + spaces(when.len() as int) + "  ↳ replying to "@ + sender
            + ": "@ + excerpt + "\n"@ == (if in_context && matched {
            "> "@
        } else {
            Seq::<char>::empty()
        }) + (indent + "↳ replying to "@) + sender + ": "@ + excerpt + "\n"@,
{
    reveal_strlit("  ↳ replying to ");
    reveal_strlit("↳ replying to ");
    reveal_strlit("  ");
    reveal_strlit("> ");
    let opening = if in_context && matched {
        "> "@
    } else {
        Seq::<char>::empty()
    };
    let indent = (if in_context && !matched {
        "  "@
    } else {
        Seq::<char>::empty()
    }) + spaces(when.len() as int) + "  "@;
    assert("  ↳ replying to "@ =~= "  "@ + "↳ replying to "@);
    assert(gutter(in_context, matched) + spaces(when.len() as int) + "  ↳ replying to "@ =~= opening + (
    indent + "↳ replying to "@));
    indent
}

/// Lines of different conversations look different: what changes a message's
/// conversation or its sender, and nothing else, changes its line.
pub proof fn a_line_tells_conversations_and_people_apart(
    a: Message,
    b: Message,
    options: Render,
    in_context: bool,
    clock: Option<i64>,
    now: i64,
)
    requires
        options.show_chat && a.chat_name is Some && b.chat_name is Some && a.chat_name->0@
            != b.chat_name->0@ && b == (Message { chat_name: b.chat_name, ..a }) || a.sender@
            != b.sender@ && b == (Message { sender: b.sender, ..a }),
    ensures
        lines(a, options, in_context, clock, now) != lines(b, options, in_context, clock, now),
{
    let mark = gutter(in_context, a.matched);
    let when = stamp(options, clock, now);
    let said = folded(or_no_text(a.body), options.styled);
    let trail = trailing(a.tapbacks@, options.trail);
    let quote = answering(a, mark, when);
    let front = quote + mark + when + "  "@;
    let back = ": "@ + said + trail + "\n"@;
    let x = whereabouts(options, a) + a.sender@;
    let y = whereabouts(options, b) + b.sender@;
    in_the_middle(front, whereabouts(options, a), a.sender@, ": "@, said, trail, "\n"@);
    in_the_middle(front, whereabouts(options, b), b.sender@, ": "@, said, trail, "\n"@);
    assert(lines(a, options, in_context, clock, now) == front + x + back);
    assert(lines(b, options, in_context, clock, now) == front + y + back);
    if front + x + back == front + y + back {
        the_middle_is_the_same(front, x, y, back);
        if a.sender@ == b.sender@ {
            reveal_strlit("[");
            reveal_strlit("] ");
            let p = a.chat_name->0@;
            let q = b.chat_name->0@;
            let end = "] "@ + a.sender@;
            assert(x =~= "["@ + p + end);
            assert(y =~= "["@ + q + end);
            the_middle_is_the_same("["@, p, q, end);
        } else {
            let none = Seq::<char>::empty();
            assert(x =~= whereabouts(options, a) + a.sender@ + none);
            assert(y =~= whereabouts(options, a) + b.sender@ + none);
            the_middle_is_the_same(whereabouts(options, a), a.sender@, b.sender@, none);
        }
    }
}

proof fn in_the_middle(
    front: Seq<char>,
    a: Seq<char>,
    b: Seq<char>,
    c: Seq<char>,
    d: Seq<char>,
    e: Seq<char>,
    f: Seq<char>,
)
    ensures
        front + a + b + c + d + e + f == front + (a + b) + (c + d + e + f),
{
    assert(front + a + b =~= front + (a + b));
    assert(front + a + b + c + d + e + f =~= front + (a + b) + (c + d + e + f));
}

proof fn the_middle_is_the_same(front: Seq<char>, x: Seq<char>, y: Seq<char>, back: Seq<char>)
    requires
        front + x + back == front + y + back,
    ensures
        x == y,
{
    assert((front + x + back).len() == (front + y + back).len());
    assert((front + x + back).subrange(front.len() as int, (front + x).len() as int) =~= x);
    assert((front + y + back).subrange(front.len() as int, (front + y).len() as int) =~= y);
}

/// Reactions trail the message they are on, each of them, behind an arrow and before
/// the end of the line, with who reacted where that is asked for; and not at all where
/// they are messages of their own.
pub proof fn reactions_trail_their_message(
    message: Message,
    plain: Message,
    options: Render,
    in_context: bool,
    clock: Option<i64>,
    now: i64,
    i: int,
)
    requires
        plain.tapbacks@.len() == 0,
        message == (Message { tapbacks: message.tapbacks, ..plain }),
        0 <= i < message.tapbacks@.len(),
        forall|j: int|
            0 <= j < message.tapbacks@.len() ==> {
                let symbol = (#[trigger] message.tapbacks@[j]).symbol@;
                symbol.len() > 0 && !text::white(symbol.last())
            },
    ensures
        options.trail == Trail::Off ==> lines(message, options, in_context, clock, now) == lines(
            plain,
            options,
            in_context,
            clock,
            now,
        ),
        options.trail != Trail::Off ==> exists|trail: Seq<char>|
            {
                &&& lines(message, options, in_context, clock, now) == lines(
                    plain,
                    options,
                    in_context,
                    clock,
                    now,
                ).drop_last() + " ← "@ + #[trigger] (trail + "\n"@)
                &&& text::contains(trail, message.tapbacks@[i].symbol@)
                &&& options.trail == Trail::Named ==> text::contains(
                    trail,
                    " "@ + (if message.tapbacks@[i].is_from_me {
                        "me"@
                    } else if message.tapbacks@[i].contact_name is Some {
                        message.tapbacks@[i].contact_name->0@
                    } else if message.tapbacks@[i].handle is Some {
                        message.tapbacks@[i].handle->0@
                    } else {
                        "unknown"@
                    }),
                )
            },
{
    reveal_strlit("\n");
    let all = message.tapbacks@;
    let bare = lines(plain, options, in_context, clock, now);
    let full = lines(message, options, in_context, clock, now);
    let none = Seq::<char>::empty();
    let head = bare.drop_last();
    assert(trailing(plain.tapbacks@, options.trail) =~= none);
    let mark = gutter(in_context, message.matched);
    let when = stamp(options, clock, now);
    let start = answering(message, mark, when) + mark + when + "  "@ + whereabouts(options, message)
        + message.sender@ + ": "@ + folded(or_no_text(message.body), options.styled);
    assert(start + none =~= start);
    assert(bare =~= start + "\n"@);
    assert(head =~= start);
    assert(full =~= start + trailing(all, options.trail) + "\n"@);
    if options.trail == Trail::Off {
        assert(full =~= bare);
    } else if options.trail == Trail::Named {
        let trail = text::join(named_reactions(all), ", "@);
        assert(full =~= head + " ← "@ + (trail + "\n"@));
        text::a_part_is_held(named_reactions(all), ", "@, i);
        let one = named_reactions(all)[i];
        let s = all[i].symbol@;
        reveal_strlit(" ");
        assert(text::contains(one, s)) by {
            assert(one.subrange(0, s.len() as int) =~= s);
            assert(text::occurs_at(one, s, 0));
        }
        let who = " "@ + reactor(all[i]);
        assert(text::contains(one, who)) by {
            let at = symbol(s).len() as int;
            assert(one.subrange(at, at + who.len()) =~= who);
            assert(text::occurs_at(one, who, at));
        }
        text::holding_carries(trail, one, s);
        text::holding_carries(trail, one, who);
    } else {
        let trail = text::trim_end(symbols(all));
        assert(full =~= head + " ← "@ + (trail + "\n"@));
        symbols_hold(all, i);
    }
}

/// Each symbol stands, and what is cut off the end of them all is only space.
proof fn symbols_hold(all: Seq<Tapback>, i: int)
    requires
        0 <= i < all.len(),
        forall|j: int|
            0 <= j < all.len() ==> {
                let symbol = (#[trigger] all[j]).symbol@;
                symbol.len() > 0 && !text::white(symbol.last())
            },
    ensures
        text::contains(text::trim_end(symbols(all)), all[i].symbol@),
        text::contains(symbols(all), all[i].symbol@),
    decreases all.len(),
{
    reveal_strlit(" ");
    let whole = symbols(all);
    let front = symbols(all.drop_last());
    let s = all.last().symbol@;
    assert(!text::white(all[all.len() - 1].symbol@.last()));
    let kept = front + s;
    if s.contains(EMOJI_PRESENTATION) {
        assert(whole =~= kept + " "@);
        assert(whole.drop_last() =~= kept);
        assert(kept.last() == s.last());
        reveal_with_fuel(text::trim_end, 3);
        assert(text::trim_end(whole) == kept);
    } else {
        assert(whole =~= kept);
        assert(text::trim_end(whole) == kept);
    }
    if i == all.len() - 1 {
        let at = front.len() as int;
        assert(kept.subrange(at, at + s.len()) =~= s);
        assert(text::occurs_at(kept, s, at));
    } else {
        assert forall|j: int| 0 <= j < all.drop_last().len() implies {
            let symbol = (#[trigger] all.drop_last()[j]).symbol@;
            symbol.len() > 0 && !text::white(symbol.last())
        } by {
            assert(all.drop_last()[j] == all[j]);
        }
        symbols_hold(all.drop_last(), i);
        assert(kept.subrange(0, front.len() as int) =~= front);
        assert(text::occurs_at(kept, front, 0));
        text::holding_carries(kept, front, all[i].symbol@);
    }
    assert(whole.subrange(0, kept.len() as int) =~= kept);
    assert(text::occurs_at(whole, kept, 0));
    text::holding_carries(whole, kept, all[i].symbol@);
}

/// What a row of the table says: the rowid at the right of its column, the name, how
/// long ago, and how many people are in it, or that it is direct. Between two of them
/// there is only space. A name that fits its column is shown whole.
pub proof fn a_row_says_which_who_when_and_how_many(
    chat: Chat,
    age: Seq<char>,
    name_cells: int,
    age_cells: int,
)
    ensures
        exists|lead: Seq<char>, shown: Seq<char>, gap: Seq<char>, rest: Seq<char>|
            {
                &&& blank(lead) && blank(gap) && blank(rest)
                &&& cells(chat.name@) <= name_cells ==> shown == chat.name@
                &&& shown == chat.name@ || shown.len() > 0 && shown.last() == '…'
                    && shown.drop_last().is_prefix_of(chat.name@)
                &&& lead.len() + text::decimal(chat.rowid as int).len() >= 5
                &&& row(chat, age, name_cells, age_cells) == #[trigger] (lead + text::decimal(
                    chat.rowid as int,
                )) + "  "@ + #[trigger] (shown + gap) + "  "@ + #[trigger] (age + rest) + "  "@ + (
                if chat.is_group {
                    text::decimal(chat.member_count as int) + " people"@
                } else {
                    "direct"@
                }) + "\n"@
            },
{
    let lead = spaces(5 - text::decimal(chat.rowid as int).len());
    let shown = cut(chat.name@, name_cells);
    let gap = spaces(name_cells - cells(shown));
    let rest = spaces(age_cells - cells(age));
    assert(blank(lead) && blank(gap) && blank(rest));
    if cells(chat.name@) > name_cells {
        let n = if name_cells <= 0 {
            fitting(chat.name@, 0) as int
        } else {
            measuring(chat.name@, fitting(chat.name@, name_cells - 1), name_cells) as int
        };
        if name_cells <= 0 {
            fitting_is_within(chat.name@, 0);
        } else {
            fitting_is_within(chat.name@, name_cells - 1);
            measuring_only_lowers(chat.name@, fitting(chat.name@, name_cells - 1), name_cells);
        }
        assert(shown == chat.name@.take(n).push('…'));
        assert(shown.drop_last() =~= chat.name@.take(n));
    }
    assert(row(chat, age, name_cells, age_cells) == (lead + text::decimal(chat.rowid as int))
        + "  "@ + (shown + gap) + "  "@ + (age + rest) + "  "@ + kind(chat) + "\n"@);
}

proof fn measuring_only_lowers(value: Seq<char>, n: nat, width: int)
    ensures
        measuring(value, n, width) <= n,
    decreases n,
{
    if n > 0 {
        measuring_only_lowers(value, (n - 1) as nat, width);
    }
}

/// A row is settled by what it shows: of two chats with the same rowid, name and
/// people the rows are the same, however many messages either holds and whatever else
/// they differ in.
pub proof fn a_row_shows_nothing_else(
    a: Chat,
    b: Chat,
    age: Seq<char>,
    name_cells: int,
    age_cells: int,
)
    requires
        a.rowid == b.rowid,
        a.name@ == b.name@,
        a.is_group == b.is_group,
        a.is_group ==> a.member_count == b.member_count,
    ensures
        row(a, age, name_cells, age_cells) == row(b, age, name_cells, age_cells),
{
}

/// The last thing a row says of a group is how many people are in it.
pub proof fn a_group_is_counted_by_its_people(
    chat: Chat,
    age: Seq<char>,
    name_cells: int,
    age_cells: int,
)
    requires
        chat.is_group,
    ensures
        ("  "@ + text::decimal(chat.member_count as int) + " people\n"@).is_suffix_of(
            row(chat, age, name_cells, age_cells),
        ),
{
    reveal_strlit(" people\n");
    reveal_strlit(" people");
    reveal_strlit("\n");
    let count = text::decimal(chat.member_count as int);
    let end = "  "@ + count + " people\n"@;
    let front = rowid_column(chat.rowid as int) + "  "@ + padded(
        cut(chat.name@, name_cells),
        name_cells,
    ) + "  "@ + padded(age, age_cells);
    assert(" people\n"@ =~= " people"@ + "\n"@);
    assert(row(chat, age, name_cells, age_cells) =~= front + end);
    assert((front + end).skip(front.len() as int) =~= end);
}

/// Every chat has its row, in the order they come in, and all rows share their columns:
/// wide enough for every name, up to the most a name gets, and for every age.
pub proof fn every_chat_has_its_row(chats: Seq<Chat>, ages: Seq<Seq<char>>, i: int, j: int)
    requires
        chats.len() == ages.len(),
        0 <= i < j < chats.len(),
    ensures
        exists|names: int, times: int, before: Seq<char>, between: Seq<char>, after: Seq<char>|
            {
                &&& names <= NAME_CELLS
                &&& cells(chats[i].name@) <= names || names == NAME_CELLS
                &&& cells(ages[i]) <= times && cells(ages[j]) <= times
                &&& table(chats, ages) == #[trigger] ((before + row(
                    chats[i],
                    ages[i],
                    names,
                    times,
                )) + (between + row(chats[j], ages[j], names, times)) + after)
            },
{
    let names = name_column(chats);
    let times = widest(ages) as int;
    the_widest_is_widest(self::names(chats), i);
    the_widest_is_widest(ages, i);
    the_widest_is_widest(ages, j);
    assert(self::names(chats)[i] == chats[i].name@);
    let n = chats.len() as int;
    let between = rows_are_appended(chats, ages, i + 1, j);
    let after = rows_are_appended(chats, ages, j + 1, n);
    let before = rows(chats, ages, i);
    let a = row(chats[i], ages[i], names, times);
    let b = row(chats[j], ages[j], names, times);
    assert(rows(chats, ages, i + 1) == before + a);
    assert(rows(chats, ages, j + 1) == rows(chats, ages, j) + b);
    assert(before + a + between + b =~= before + a + (between + b));
    assert(table(chats, ages) == (before + a) + (between + b) + after);
}

proof fn rows_are_appended(chats: Seq<Chat>, ages: Seq<Seq<char>>, from: int, to: int) -> (more: Seq<
    char,
>)
    requires
        0 <= from <= to,
    ensures
        rows(chats, ages, to) == rows(chats, ages, from) + more,
    decreases to - from,
{
    if from == to {
        assert(rows(chats, ages, from) + Seq::<char>::empty() =~= rows(chats, ages, from));
        Seq::empty()
    } else {
        let more = rows_are_appended(chats, ages, from, to - 1);
        let last = row(chats[to - 1], ages[to - 1], name_column(chats), widest(ages) as int);
        assert(rows(chats, ages, from) + more + last =~= rows(chats, ages, from) + (more + last));
        more + last
    }
}

proof fn the_widest_is_widest(texts: Seq<Seq<char>>, i: int)
    requires
        0 <= i < texts.len(),
    ensures
        cells(texts[i]) <= widest(texts),
    decreases texts.len(),
{
    if i < texts.len() - 1 {
        the_widest_is_widest(texts.drop_last(), i);
    }
}

/// How long ago is told in whole minutes, hours or days, whichever is the largest that
/// fits, never rounded up: of a date `elapsed` milliseconds back, the count of them is
/// no more than there were and less than one short of it.
pub proof fn an_age_counts_whole_units(date: i64, now: i64)
    ensures
        ({
            let elapsed = now - date;
            &&& elapsed < 60_000 ==> age(Some(date), now) == Some("just now"@)
            &&& 60_000 <= elapsed < 3_600_000 ==> exists|n: int|
                1 <= n < 60 && n * 60_000 <= elapsed < (n + 1) * 60_000 && age(Some(date), now)
                    == Some(#[trigger] text::decimal(n) + "m ago"@)
            &&& 3_600_000 <= elapsed < 86_400_000 ==> exists|n: int|
                1 <= n < 24 && n * 3_600_000 <= elapsed < (n + 1) * 3_600_000 && age(
                    Some(date),
                    now,
                ) == Some(#[trigger] text::decimal(n) + "h ago"@)
            &&& 86_400_000 <= elapsed < 2_592_000_000 ==> exists|n: int|
                1 <= n < 30 && n * 86_400_000 <= elapsed < (n + 1) * 86_400_000 && age(
                    Some(date),
                    now,
                ) == Some(#[trigger] text::decimal(n) + "d ago"@)
            &&& elapsed >= 2_592_000_000 ==> age(Some(date), now) is None
        }),
        age(None, now) == Some("never"@),
{
    let elapsed = now - date;
    let seconds = seconds_ago(date as int, now as int);
    if 60_000 <= elapsed < 3_600_000 {
        let n = seconds / 60;
        assert(1 <= n < 60 && n * 60_000 <= elapsed < (n + 1) * 60_000);
        assert(age(Some(date), now) == Some(text::decimal(n) + "m ago"@));
    } else if 3_600_000 <= elapsed < 86_400_000 {
        let n = seconds / 3_600;
        assert(1 <= n < 24 && n * 3_600_000 <= elapsed < (n + 1) * 3_600_000);
        assert(age(Some(date), now) == Some(text::decimal(n) + "h ago"@));
    } else if 86_400_000 <= elapsed < 2_592_000_000 {
        let n = seconds / 86_400;
        assert(1 <= n < 30 && n * 86_400_000 <= elapsed < (n + 1) * 86_400_000);
        assert(age(Some(date), now) == Some(text::decimal(n) + "d ago"@));
    }
}

/// A day line names the day by how far back it is: today, yesterday, the weekday
/// within a week, and a date before that and for a day still to come, with the year
/// where it is not this one.
pub proof fn a_day_is_named_by_how_far_back_it_is(clock: i64, now: i64)
    ensures
        ({
            let back = now as int / 86_400_000 - clock as int / 86_400_000;
            &&& back == 0 ==> headed(clock, now) == "Today"@
            &&& back == 1 ==> headed(clock, now) == "Yesterday"@
            &&& 2 <= back <= 6 ==> headed(clock, now) == strftime(clock, "%A"@)
            &&& (back < 0 || back > 6) && year(clock) == year(now) ==> headed(clock, now)
                == strftime(clock, "%A, %B %-d"@)
            &&& (back < 0 || back > 6) && year(clock) != year(now) ==> headed(clock, now)
                == strftime(clock, "%A, %B %-d, %Y"@)
        }),
{
}

/// Every message is in the transcript, in the order they come in.
#[verifier::rlimit(40)]
pub proof fn every_message_is_drawn(
    messages: Seq<Message>,
    clocks: Seq<Option<i64>>,
    now: i64,
    options: Render,
    day_on: Option<int>,
    i: int,
    j: int,
)
    requires
        0 <= i < j < messages.len(),
    ensures
        exists|context: bool, before: Seq<char>, between: Seq<char>, after: Seq<char>|
            {
                &&& context <==> exists|k: int|
                    0 <= k < messages.len() && (#[trigger] messages[k]).group is Some
                &&& transcript(messages, clocks, now, options, day_on).text == #[trigger] ((before
                    + lines(messages[i], options, context, clocks[i], now)) + (between + lines(
                    messages[j],
                    options,
                    context,
                    clocks[j],
                    now,
                )) + after)
            },
{
    let context = in_runs(messages);
    let a = lines(messages[i], options, context, clocks[i], now);
    let b = lines(messages[j], options, context, clocks[j], now);
    let before = a_message_ends_what_is_drawn(messages, clocks, now, options, day_on, i);
    let more = drawing_goes_on(messages, clocks, now, options, day_on, i + 1, j);
    let head = a_message_adds_itself(messages, clocks, now, options, day_on, j);
    let after = drawing_goes_on(
        messages,
        clocks,
        now,
        options,
        day_on,
        j + 1,
        messages.len() as int,
    );
    let between = more + head;
    one_between(before + a, more, head, b);
    let whole = (before + a) + (between + b) + after;
    assert(drawn(messages, clocks, now, options, day_on, j + 1).text == (before + a) + (between
        + b));
    assert(transcript(messages, clocks, now, options, day_on).text == whole);
}

proof fn one_between(a: Seq<char>, b: Seq<char>, c: Seq<char>, d: Seq<char>)
    ensures
        a + b + (c + d) == a + ((b + c) + d),
{
    assert(a + b + (c + d) =~= a + ((b + c) + d));
}

proof fn a_message_adds_itself(
    messages: Seq<Message>,
    clocks: Seq<Option<i64>>,
    now: i64,
    options: Render,
    day_on: Option<int>,
    i: int,
) -> (head: Seq<char>)
    requires
        0 <= i,
    ensures
        drawn(messages, clocks, now, options, day_on, i + 1).text == drawn(
            messages,
            clocks,
            now,
            options,
            day_on,
            i,
        ).text + (head + lines(messages[i], options, in_runs(messages), clocks[i], now)),
{
    let so_far = drawn(messages, clocks, now, options, day_on, i);
    let message = messages[i];
    let parted = if in_runs(messages) && message.group is Some && so_far.run is Some && so_far.run
        != message.group {
        "--\n"@
    } else {
        Seq::<char>::empty()
    };
    let header = if opens_day(options, so_far.day, clocks[i]) {
        day_line(clocks[i]->0, now, options.styled)
    } else {
        Seq::<char>::empty()
    };
    let line = lines(message, options, in_runs(messages), clocks[i], now);
    assert(so_far.text + parted + header + line =~= so_far.text + ((parted + header) + line));
    parted + header
}

proof fn a_message_ends_what_is_drawn(
    messages: Seq<Message>,
    clocks: Seq<Option<i64>>,
    now: i64,
    options: Render,
    day_on: Option<int>,
    i: int,
) -> (before: Seq<char>)
    requires
        0 <= i,
    ensures
        drawn(messages, clocks, now, options, day_on, i + 1).text == before + lines(
            messages[i],
            options,
            in_runs(messages),
            clocks[i],
            now,
        ),
{
    let head = a_message_adds_itself(messages, clocks, now, options, day_on, i);
    let text = drawn(messages, clocks, now, options, day_on, i).text;
    let line = lines(messages[i], options, in_runs(messages), clocks[i], now);
    assert(text + (head + line) =~= text + head + line);
    text + head
}

proof fn drawing_goes_on(
    messages: Seq<Message>,
    clocks: Seq<Option<i64>>,
    now: i64,
    options: Render,
    day_on: Option<int>,
    from: int,
    to: int,
) -> (more: Seq<char>)
    requires
        0 <= from <= to,
    ensures
        drawn(messages, clocks, now, options, day_on, to).text == drawn(
            messages,
            clocks,
            now,
            options,
            day_on,
            from,
        ).text + more,
    decreases to - from,
{
    let start = drawn(messages, clocks, now, options, day_on, from).text;
    if from == to {
        assert(start + Seq::<char>::empty() =~= start);
        Seq::empty()
    } else {
        let more = drawing_goes_on(messages, clocks, now, options, day_on, from, to - 1);
        let head = a_message_adds_itself(messages, clocks, now, options, day_on, to - 1);
        let line = lines(messages[to - 1], options, in_runs(messages), clocks[to - 1], now);
        assert(start + more + (head + line) =~= start + (more + (head + line)));
        more + (head + line)
    }
}

/// Between a message and the next there is nothing but what a reader has to be told:
/// that the next is of another stretch of the conversation, and that it is of another
/// day.
pub proof fn a_change_of_day_or_stretch_is_shown(
    messages: Seq<Message>,
    clocks: Seq<Option<i64>>,
    now: i64,
    options: Render,
    day_on: Option<int>,
    i: int,
)
    requires
        0 <= i,
        i + 1 < messages.len(),
        clocks[i] is Some,
        clocks[i + 1] is Some,
    ensures
        exists|context: bool, before: Seq<char>, after: Seq<char>|
            {
                let parted = if context && messages[i].group is Some && messages[i + 1].group is Some
                    && messages[i].group != messages[i + 1].group {
                    "--\n"@
                } else {
                    Seq::<char>::empty()
                };
                let day = headed(clocks[i + 1]->0, now);
                let header = if !options.day_headers || clocks[i]->0 as int / 86_400_000
                    == clocks[i + 1]->0 as int / 86_400_000 {
                    Seq::<char>::empty()
                } else if options.styled {
                    "\x1b[1m"@ + day + "\x1b[0m\n"@
                } else {
                    day + "\n"@
                };
                &&& context <==> exists|k: int|
                    0 <= k < messages.len() && (#[trigger] messages[k]).group is Some
                &&& transcript(messages, clocks, now, options, day_on).text == #[trigger] (before
                    + lines(messages[i], options, context, clocks[i], now)) + parted + header
                    + #[trigger] (lines(messages[i + 1], options, context, clocks[i + 1], now)
                    + after)
            },
{
    let context = in_runs(messages);
    let before = a_message_ends_what_is_drawn(messages, clocks, now, options, day_on, i);
    let after = drawing_goes_on(
        messages,
        clocks,
        now,
        options,
        day_on,
        i + 2,
        messages.len() as int,
    );
    let so_far = drawn(messages, clocks, now, options, day_on, i + 1);
    if options.day_headers {
        assert(so_far.day == Some(day(clocks[i]->0 as int)));
    }
    if context {
        assert(so_far.run == messages[i].group);
    }
    let parted = if context && messages[i + 1].group is Some && so_far.run is Some && so_far.run
        != messages[i + 1].group {
        "--\n"@
    } else {
        Seq::<char>::empty()
    };
    let header = if opens_day(options, so_far.day, clocks[i + 1]) {
        day_line(clocks[i + 1]->0, now, options.styled)
    } else {
        Seq::<char>::empty()
    };
    let a = lines(messages[i], options, context, clocks[i], now);
    let b = lines(messages[i + 1], options, context, clocks[i + 1], now);
    assert(drawn(messages, clocks, now, options, day_on, i + 2).text == so_far.text + parted
        + header + b);
    assert(before + a + parted + header + b + after =~= (before + a) + parted + header + (b
        + after));
    assert(transcript(messages, clocks, now, options, day_on).text == (before + a) + parted + header
        + (b + after));
}

/// Who reacted is told as who sent it: me, the name their address is known under, or the
/// address itself.
pub proof fn a_reaction_is_told_by_its_sender(tapback: Tapback)
    ensures
        tapback.is_from_me ==> reactor(tapback) == "me"@,
        !tapback.is_from_me && tapback.contact_name is Some ==> reactor(tapback)
            == tapback.contact_name->0@,
        !tapback.is_from_me && tapback.contact_name is None && tapback.handle is Some ==> reactor(
            tapback,
        ) == tapback.handle->0@,
        !tapback.is_from_me && tapback.contact_name is None && tapback.handle is None ==> reactor(
            tapback,
        ) == "unknown"@,
{
}

/// A stamp says the time, and the date with it on any day but today.
pub proof fn a_stamp_says_the_date_unless_it_is_today(clock: i64, now: i64)
    ensures
        clock as int / 86_400_000 == now as int / 86_400_000 ==> timestamp(Some(clock), now)
            == strftime(clock, "%-I:%M %p"@),
        clock as int / 86_400_000 != now as int / 86_400_000 ==> timestamp(Some(clock), now)
            == strftime(clock, "%b %-d, %-I:%M %p"@),
        timestamp(None, now).len() == 0,
{
}

/// Padding adds spaces behind a text and nothing else: as many as are missing to the
/// width, and none where the text is as wide.
pub proof fn padding_adds_only_space(value: Seq<char>, width: int)
    ensures
        value.is_prefix_of(padded(value, width)),
        blank(padded(value, width).skip(value.len() as int)),
        cells(value) <= width ==> padded(value, width).len() == value.len() + (width - cells(
            value,
        )),
        cells(value) >= width ==> padded(value, width) == value,
{
    let all = padded(value, width);
    let n = width - cells(value);
    assert(all.take(value.len() as int) =~= value);
    assert(all.skip(value.len() as int) =~= spaces(n));
    if n <= 0 {
        assert(all =~= value);
    }
}

/// The column of names is as wide as the widest of them, and no wider than thirty-eight.
pub proof fn the_names_get_the_room_they_need(chats: Seq<Chat>, i: int)
    requires
        0 <= i < chats.len(),
    ensures
        name_column(chats) <= 38,
        name_column(chats) < 38 ==> cells(chats[i].name@) <= name_column(chats),
        (forall|j: int| 0 <= j < chats.len() ==> cells((#[trigger] chats[j]).name@) <= 38)
            ==> cells(chats[i].name@) <= name_column(chats),
{
    let all = names(chats);
    the_widest_is_widest(all, i);
    assert(all[i] == chats[i].name@);
}

} // verus!
