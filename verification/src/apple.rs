//! Apple-specific encodings used by the Messages database.
use vstd::prelude::*;

use crate::double::{self, Double, nearest_to};
use crate::iso;
use crate::text::{self, chars_of, text_of, trimmed};
use crate::wide::{self, times_plus};

verus! {

/// Milliseconds between the Unix epoch and Apple's 2001-01-01 epoch.
pub const APPLE_EPOCH_OFFSET_MS: i64 = 978_307_200_000;

/// Dates recorded before the 2011 schema change are in seconds; everything
/// since is in nanoseconds. Values above this are nanoseconds.
pub const NANOSECOND_THRESHOLD: i64 = 1_000_000_000_000;

pub const NANOSECONDS_PER_MS: i64 = 1_000_000;

/// `n` divided by `d`, towards zero.
pub open spec fn towards_zero(n: int, d: int) -> int {
    if n < 0 {
        -((-n) / d)
    } else {
        n / d
    }
}

/// The instant an Apple timestamp stands for, in Unix milliseconds. Missing and
/// zero are no date.
pub open spec fn instant(value: Option<i64>) -> Option<int> {
    match value {
        None => None,
        Some(value) => if value == 0 {
            None
        } else if value > NANOSECOND_THRESHOLD || value < -NANOSECOND_THRESHOLD {
            Some(towards_zero(value as int, NANOSECONDS_PER_MS as int) + APPLE_EPOCH_OFFSET_MS)
        } else {
            Some(value * 1_000 + APPLE_EPOCH_OFFSET_MS)
        },
    }
}

/// Convert an Apple timestamp to Unix milliseconds.
///
/// These values arrive from a database this program does not write. None of
/// them wraps, and every one that is a date falls within the calendar.
pub fn from_apple_date(value: Option<i64>) -> (out: Option<i64>)
    ensures
        out is Some <==> instant(value) is Some,
        out is Some ==> out->0 == instant(value)->0,
        out is Some ==> iso::in_calendar(out->0 as int),
{
    let value: i64 = match value {
        None => return None,
        Some(value) => value,
    };
    if value == 0 {
        return None;
    }
    let ms: i64 = if value > NANOSECOND_THRESHOLD {
        value / NANOSECONDS_PER_MS
    } else if value < -NANOSECOND_THRESHOLD {
        let size: i128 = -(value as i128);
        -((size / (NANOSECONDS_PER_MS as i128)) as i64)
    } else {
        value * 1_000
    };
    Some(ms + APPLE_EPOCH_OFFSET_MS)
}

/// Apple's nanosecond timestamp for an instant, where one fits.
pub open spec fn apple(millis: int) -> Option<int> {
    let value = (millis - APPLE_EPOCH_OFFSET_MS) * NANOSECONDS_PER_MS;
    if i64::MIN <= millis - APPLE_EPOCH_OFFSET_MS && i64::MIN <= value <= i64::MAX {
        Some(value)
    } else {
        None
    }
}

/// Milliseconds since the Unix epoch to Apple's nanosecond timestamp.
///
/// Checked, because the range is narrower than it looks: `i64` nanoseconds
/// spans only ±292 years around 2001, so a date a user can easily type —
/// `1700-01-01`, `9999-01-01` — does not fit.
pub fn millis_to_apple(millis: i64) -> (out: Option<i64>)
    ensures
        out is Some <==> apple(millis as int) is Some,
        out is Some ==> out->0 == apple(millis as int)->0,
{
    match millis.checked_sub(APPLE_EPOCH_OFFSET_MS) {
        Some(since) => since.checked_mul(NANOSECONDS_PER_MS),
        None => None,
    }
}

/// Convert an instant to Apple's nanosecond timestamp, or `None` if it does not
/// fit in one.
pub fn to_apple_date(date: i64) -> (out: Option<i64>)
    ensures
        out is Some <==> apple(date as int) is Some,
        out is Some ==> out->0 == apple(date as int)->0,
{
    millis_to_apple(date)
}

/// An instant written as an Apple timestamp reads back as the same instant,
/// wherever the timestamp is large enough to be nanoseconds: more than a
/// thousand seconds either side of Apple's epoch.
pub proof fn a_date_round_trips(millis: i64, value: i64)
    requires
        apple(millis as int) == Some(value as int),
        millis - APPLE_EPOCH_OFFSET_MS > 1_000_000 || millis - APPLE_EPOCH_OFFSET_MS < -1_000_000,
    ensures
        instant(Some(value)) == Some(millis as int),
{
    let since = millis - APPLE_EPOCH_OFFSET_MS;
    assert(value == since * 1_000_000);
    if since < 0 {
        assert((-value) / 1_000_000 == -since);
    } else {
        assert(value / 1_000_000 == since);
    }
}

/// A `--since` value this cannot turn into a cutoff.
#[derive(Debug)]
pub enum ParseTimeError {
    /// Neither a duration nor a date.
    Unparsed(String),
    /// A real date, outside what an Apple timestamp can hold.
    OutOfRange(String),
}

impl ParseTimeError {
    /// What the error says, naming what was typed.
    pub open spec fn said(&self) -> Seq<char> {
        match self {
            ParseTimeError::Unparsed(spec) => "cannot parse time "@ + spec@
                + ", expected something like 2h, 7d, or 2026-08-01"@,
            ParseTimeError::OutOfRange(spec) => spec@
                + " is outside the range a Messages timestamp can hold, which is roughly the years 1709 to 2293"@,
        }
    }

    /// The message for this error.
    pub fn to_string(&self) -> (out: String)
        ensures
            out@ == self.said(),
    {
        let mut out: String = String::new();
        match self {
            ParseTimeError::Unparsed(spec) => {
                out.append("cannot parse time ");
                out.append(spec.as_str());
                out.append(", expected something like 2h, 7d, or 2026-08-01");
            },
            ParseTimeError::OutOfRange(spec) => {
                out.append(spec.as_str());
                out.append(
                    " is outside the range a Messages timestamp can hold, which is roughly the years 1709 to 2293",
                );
            },
        }
        proof {
            match self {
                ParseTimeError::Unparsed(spec) => {
                    assert(out@ =~= self.said());
                },
                ParseTimeError::OutOfRange(spec) => {
                    assert(out@ =~= self.said());
                },
            }
        }
        out
    }
}

/// What stands before the first `.`.
pub open spec fn whole_part(s: Seq<char>) -> Seq<char>
    decreases s.len(),
{
    if s.len() == 0 || s[0] == '.' {
        Seq::<char>::empty()
    } else {
        seq![s[0]] + whole_part(s.drop_first())
    }
}

/// `\d+(\.\d+)?`: digits, and maybe a point and more digits.
pub open spec fn decimal_shape(s: Seq<char>) -> bool {
    let whole = whole_part(s);
    text::all_digits(whole) && (s.len() == whole.len() || text::all_digits(s.skip(whole.len() as int + 1)))
}

/// Where the first `.` is, or the end.
fn point_at(s: &[char]) -> (at: usize)
    ensures
        at == whole_part(s@).len(),
        at <= s@.len(),
        whole_part(s@) == s@.take(at as int),
        at < s@.len() ==> s@[at as int] == '.',
{
    let mut at: usize = 0;
    proof {
        assert(s@.skip(0) =~= s@);
        assert(s@.take(0) + whole_part(s@) =~= whole_part(s@));
    }
    while at < s.len() && s[at] != '.'
        invariant
            at <= s@.len(),
            whole_part(s@) == s@.take(at as int) + whole_part(s@.skip(at as int)),
        decreases s@.len() - at,
    {
        proof {
            let rest = s@.skip(at as int);
            assert(rest.drop_first() =~= s@.skip(at + 1));
            assert(s@.take(at as int) + (seq![rest[0]] + whole_part(rest.drop_first()))
                =~= s@.take(at + 1) + whole_part(s@.skip(at + 1)));
        }
        at += 1;
    }
    proof {
        assert(s@.take(at as int) + Seq::<char>::empty() =~= s@.take(at as int));
    }
    at
}

/// Whether `s[from..to]` is digits and nothing but.
fn digits_between(s: &[char], from: usize, to: usize) -> (yes: bool)
    requires
        from <= to <= s@.len(),
    ensures
        yes == text::all_digits(s@.subrange(from as int, to as int)),
{
    let ghost part = s@.subrange(from as int, to as int);
    if from == to {
        return false;
    }
    for i in from..to
        invariant
            from <= i <= to <= s@.len(),
            part == s@.subrange(from as int, to as int),
            forall|j: int| 0 <= j < i - from ==> text::ascii_digit(#[trigger] part[j]),
    {
        if !('0' <= s[i] && s[i] <= '9') {
            assert(!text::ascii_digit(part[i - from]));
            return false;
        }
    }
    true
}

/// Whether a string is `\d+(\.\d+)?` — the shape a duration's amount takes.
pub fn is_decimal(value: &[char]) -> (yes: bool)
    ensures
        yes == decimal_shape(value@),
{
    let point: usize = point_at(value);
    proof {
        assert(value@.take(point as int) =~= value@.subrange(0, point as int));
        if point < value@.len() {
            assert(value@.skip(point + 1) =~= value@.subrange(point + 1, value@.len() as int));
        }
    }
    digits_between(value, 0, point) && (point == value.len() || digits_between(
        value,
        point + 1,
        value.len(),
    ))
}

/// Milliseconds in one of a duration's units.
pub open spec fn unit(c: char) -> Option<nat> {
    if c == 'm' {
        Some(60_000)
    } else if c == 'h' {
        Some(3_600_000)
    } else if c == 'd' {
        Some(86_400_000)
    } else if c == 'w' {
        Some(604_800_000)
    } else {
        None
    }
}

/// Ten to a power.
pub open spec fn tens(k: nat) -> nat
    decreases k,
{
    if k == 0 {
        1
    } else {
        10 * tens((k - 1) as nat)
    }
}

/// What is behind the point of a decimal.
pub open spec fn fraction_part(s: Seq<char>) -> Seq<char> {
    let whole = whole_part(s);
    if s.len() == whole.len() {
        Seq::<char>::empty()
    } else {
        s.skip(whole.len() as int + 1)
    }
}

/// The double a decimal is read as.
pub open spec fn amount(s: Seq<char>) -> double::DoubleView {
    double::nearest(text::number(whole_part(s) + fraction_part(s)), tens(fraction_part(s).len()))
}

/// How many milliseconds `2h` or `1.5d` is, or nothing where the text is no
/// duration.
///
/// The amount is a double, and so is what it comes to in milliseconds, without
/// what is behind the point: `4.35m`, which no double is exactly, is 260999. An
/// amount that comes to more than a double can hold is no duration.
pub open spec fn duration(spec: Seq<char>) -> Option<nat> {
    if spec.len() == 0 || unit(spec.last()) is None || !decimal_shape(spec.drop_last()) {
        None
    } else {
        let scaled = double::times(amount(spec.drop_last()), unit(spec.last())->0);
        if scaled.finite() {
            Some(scaled.truncated())
        } else {
            None
        }
    }
}

/// `n`, or the nearest `i64` to it.
pub open spec fn clamped(n: int) -> int {
    if n < i64::MIN {
        i64::MIN as int
    } else if n > i64::MAX {
        i64::MAX as int
    } else {
        n
    }
}

/// The number digits spell, however long.
fn spelled(s: &Vec<char>) -> (out: Vec<u32>)
    requires
        forall|i: int| 0 <= i < s@.len() ==> text::ascii_digit(#[trigger] s@[i]),
    ensures
        wide::value(out@) == text::number(s@),
{
    let mut out: Vec<u32> = Vec::new();
    for i in 0..s.len()
        invariant
            forall|i: int| 0 <= i < s@.len() ==> text::ascii_digit(#[trigger] s@[i]),
            wide::value(out@) == text::number(s@.take(i as int)),
    {
        proof {
            let upto = s@.take(i + 1);
            assert(upto.drop_last() =~= s@.take(i as int));
            assert(upto.last() == s@[i as int]);
            assert(text::ascii_digit(s@[i as int]));
        }
        out = times_plus(&out, 10, s[i] as u32 - 48);
    }
    assert(s@.take(s@.len() as int) =~= s@);
    out
}

/// The double a decimal is read as.
fn read_amount(s: &Vec<char>) -> (out: Double)
    requires
        decimal_shape(s@),
    ensures
        out@ == amount(s@),
        out@.wf(),
{
    let point: usize = point_at(s);
    let ghost whole = whole_part(s@);
    let ghost fraction = fraction_part(s@);
    let mut digits: Vec<char> = Vec::new();
    for i in 0..point
        invariant
            point <= s@.len(),
            digits@ == s@.take(i as int),
    {
        digits.push(s[i]);
    }
    let mut below: Vec<u32> = Vec::new();
    below.push(1);
    proof {
        assert(below@.drop_first() =~= Seq::<u32>::empty());
        assert(wide::value(below@.drop_first()) == 0);
        assert(whole + fraction.take(0) =~= whole);
    }
    if point < s.len() {
        for i in point + 1..s.len()
            invariant
                point + 1 <= i <= s@.len(),
                fraction == s@.skip(point + 1),
                digits@ == whole + fraction.take(i - point - 1),
                wide::value(below@) == tens((i - point - 1) as nat),
        {
            proof {
                assert(fraction[i - point - 1] == s@[i as int]);
                assert(whole + fraction.take(i - point) =~= (whole + fraction.take(
                    i - point - 1,
                )).push(s@[i as int]));
            }
            digits.push(s[i]);
            below = times_plus(&below, 10, 0);
        }
    }
    proof {
        assert(fraction.take(fraction.len() as int) =~= fraction);
        assert(digits@ == whole + fraction);
        assert forall|i: int| 0 <= i < digits@.len() implies text::ascii_digit(
            #[trigger] digits@[i],
        ) by {
            if i < whole.len() {
                assert(text::ascii_digit(whole[i]));
            } else {
                assert(text::ascii_digit(fraction[i - whole.len()]));
            }
        }
        tens_are_some(fraction.len());
    }
    nearest_to(&spelled(&digits), &below)
}

proof fn tens_are_some(k: nat)
    ensures
        tens(k) > 0,
    decreases k,
{
    if k > 0 {
        tens_are_some((k - 1) as nat);
    }
}

/// Parse `2h` or `7d` into milliseconds before `now`.
///
/// Saturating rather than wrapping: `99999999w` is a silly thing to type but it
/// should read as "everything", not as a cutoff in the far future. An amount too
/// large for a double is no duration.
pub fn parse_duration(spec: &[char], now: i64) -> (out: Option<i64>)
    ensures
        out is Some <==> duration(spec@) is Some,
        out is Some ==> out->0 == clamped(now - clamped(duration(spec@)->0 as int)),
{
    if spec.len() == 0 {
        return None;
    }
    let last: usize = spec.len() - 1;
    let scale: u32 = match spec[last] {
        'm' => 60_000,
        'h' => 3_600_000,
        'd' => 86_400_000,
        'w' => 604_800_000,
        _ => return None,
    };
    let mut amount: Vec<char> = Vec::new();
    for i in 0..last
        invariant
            last < spec@.len(),
            amount@ == spec@.take(i as int),
    {
        amount.push(spec[i]);
    }
    assert(amount@ =~= spec@.drop_last());
    if !is_decimal(&amount) {
        return None;
    }
    let exact = read_amount(&amount).times(scale);
    if !exact.is_finite() {
        return None;
    }
    let scaled: i64 = exact.to_i64();
    match now.checked_sub(scaled) {
        Some(cutoff) => Some(cutoff),
        None => Some(i64::MIN),
    }
}

proof fn digits_have_no_point(s: Seq<char>)
    requires
        forall|i: int| 0 <= i < s.len() ==> text::ascii_digit(#[trigger] s[i]),
    ensures
        whole_part(s) == s,
    decreases s.len(),
{
    if s.len() > 0 {
        assert(text::ascii_digit(s[0]));
        assert forall|i: int| 0 <= i < s.drop_first().len() implies text::ascii_digit(
            #[trigger] s.drop_first()[i],
        ) by {
            assert(text::ascii_digit(s[i + 1]));
        }
        digits_have_no_point(s.drop_first());
        assert(seq![s[0]] + s.drop_first() =~= s);
    }
}

/// A whole number of units is that many milliseconds to the last one, as far as a
/// double counts every whole number.
pub proof fn whole_units_are_exact(spec: Seq<char>)
    requires
        spec.len() > 0,
        unit(spec.last()) is Some,
        text::all_digits(spec.drop_last()),
        text::number(spec.drop_last()) * unit(spec.last())->0 < double::MOST,
    ensures
        duration(spec) == Some(text::number(spec.drop_last()) * unit(spec.last())->0),
{
    let s = spec.drop_last();
    digits_have_no_point(s);
    assert(whole_part(s) + fraction_part(s) =~= s);
    double::small_products_are_exact(text::number(s), unit(spec.last())->0);
}

/// What `chrono::NaiveDateTime::parse_from_str` reads a text as under a layout,
/// in milliseconds since the Unix epoch on a clock with no offset.
pub uninterp spec fn clock(text: Seq<char>, layout: Seq<char>) -> Option<i64>;

/// `chrono::NaiveDateTime::parse_from_str`: the reading of a clock that a text
/// spells under a layout. A function of the two texts.
#[verifier::external_body]
fn read_clock(text: &str, layout: &str) -> (out: Option<i64>)
    ensures
        out == clock(text@, layout@),
{
    chrono::NaiveDateTime::parse_from_str(text, layout).ok().map(
        |naive| naive.and_utc().timestamp_millis(),
    )
}

/// What `chrono::NaiveDate::parse_from_str` reads a text as under a layout, in
/// days since the Unix epoch.
pub uninterp spec fn calendar_day(text: Seq<char>, layout: Seq<char>) -> Option<i32>;

/// A day in milliseconds.
pub const DAY_MS: i64 = 86_400_000;

/// `chrono::NaiveDate::parse_from_str`, and `NaiveDate::to_epoch_days`: the day
/// a text names under a layout. A function of the two texts.
#[verifier::external_body]
fn read_day(text: &str, layout: &str) -> (out: Option<i32>)
    ensures
        out == calendar_day(text@, layout@),
{
    chrono::NaiveDate::parse_from_str(text, layout).ok().map(|date| date.to_epoch_days())
}

/// Midnight UTC of the day a text like `2026-01-15` names.
pub open spec fn midnight(text: Seq<char>) -> Option<i64> {
    match calendar_day(text, "%Y-%m-%d"@) {
        Some(day) => Some((day * DAY_MS) as i64),
        None => None,
    }
}

/// Two readings less than a day apart.
pub open spec fn within_a_day(a: i64, b: i64) -> bool {
    a - DAY_MS < b < a + DAY_MS
}

/// `chrono::Local.from_local_datetime(..).earliest()`: the instant at which this
/// machine's clock shows a reading, the earlier where it shows it twice and
/// nothing where it never does. It rests on the machine's time zone, so all that
/// is said is that an offset is less than a day.
#[verifier::external_body]
fn local_instant(clock_millis: i64) -> (out: Option<i64>)
    ensures
        out is Some ==> within_a_day(clock_millis, out->0),
{
    let naive = chrono::DateTime::from_timestamp_millis(clock_millis)?.naive_utc();
    chrono::TimeZone::from_local_datetime(&chrono::Local, &naive).earliest().map(
        |local| local.timestamp_millis(),
    )
}

/// `chrono::Utc::now().timestamp_millis()`: the time. Nothing is said of it but
/// that it is one `chrono` can hold.
#[verifier::external_body]
pub(crate) fn now_millis() -> (out: i64)
    ensures
        iso::in_calendar(out as int),
{
    chrono::Utc::now().timestamp_millis()
}

/// What a text that is no duration says.
#[derive(Debug)]
pub enum Reading {
    /// One instant, wherever it is read.
    Instant(i64),
    /// A reading of whatever clock is on the wall, with no offset.
    Clock(i64),
    /// No date at all.
    Nothing,
}

/// The first of the four layouts of a clock reading that a text fits.
pub open spec fn clock_reading(text: Seq<char>) -> Option<i64> {
    let iso_seconds = clock(text, "%Y-%m-%dT%H:%M:%S%.f"@);
    let seconds = clock(text, "%Y-%m-%d %H:%M:%S%.f"@);
    let iso_minutes = clock(text, "%Y-%m-%dT%H:%M"@);
    let minutes = clock(text, "%Y-%m-%d %H:%M"@);
    if iso_seconds is Some {
        iso_seconds
    } else if seconds is Some {
        seconds
    } else if iso_minutes is Some {
        iso_minutes
    } else {
        minutes
    }
}

/// What a text says, as the first of: an instant with an offset, a clock
/// reading without one, a bare day.
pub open spec fn reading(text: Seq<char>) -> Reading {
    if let Some(millis) = iso::rfc3339(text) {
        Reading::Instant(millis)
    } else if let Some(millis) = clock_reading(text) {
        Reading::Clock(millis)
    } else if let Some(millis) = midnight(text) {
        Reading::Instant(millis)
    } else {
        Reading::Nothing
    }
}

/// Read a date: RFC 3339, a clock reading in one of four layouts, or a bare
/// `2026-01-15`, which is midnight **UTC** and not local.
pub fn read_date(spec: &str) -> (out: Reading)
    ensures
        out == reading(spec@),
{
    if let Some(millis) = iso::read_rfc3339(spec) {
        return Reading::Instant(millis);
    }
    if let Some(millis) = read_clock(spec, "%Y-%m-%dT%H:%M:%S%.f") {
        return Reading::Clock(millis);
    }
    if let Some(millis) = read_clock(spec, "%Y-%m-%d %H:%M:%S%.f") {
        return Reading::Clock(millis);
    }
    if let Some(millis) = read_clock(spec, "%Y-%m-%dT%H:%M") {
        return Reading::Clock(millis);
    }
    if let Some(millis) = read_clock(spec, "%Y-%m-%d %H:%M") {
        return Reading::Clock(millis);
    }
    match read_day(spec, "%Y-%m-%d") {
        Some(day) => Reading::Instant(day as i64 * DAY_MS),
        None => Reading::Nothing,
    }
}

/// The instant a date stands for.
///
/// A time written without an offset is the one the user's clock shows, so the
/// machine's time zone decides that one. Anything else is settled by the text.
pub fn parse_date(spec: &str) -> (out: Option<i64>)
    ensures
        match reading(spec@) {
            Reading::Instant(millis) => out == Some(millis),
            Reading::Clock(millis) => out is Some ==> within_a_day(millis, out->0),
            Reading::Nothing => out is None,
        },
{
    match read_date(spec) {
        Reading::Instant(millis) => Some(millis),
        Reading::Clock(millis) => local_instant(millis),
        Reading::Nothing => None,
    }
}

/// What asking for everything since `millis` comes to: an Apple timestamp, or
/// an error naming what was typed.
pub open spec fn settles(
    spec: Seq<char>,
    millis: Option<i64>,
    out: Result<i64, ParseTimeError>,
) -> bool {
    match millis {
        None => out is Err && out->Err_0 is Unparsed && out->Err_0->Unparsed_0@ == spec,
        Some(millis) => match apple(millis as int) {
            Some(value) => out is Ok && out->Ok_0 == value,
            None => out is Err && out->Err_0 is OutOfRange && out->Err_0->OutOfRange_0@ == spec,
        },
    }
}

/// Settle a cutoff that was read as `millis`, or that could not be read.
pub fn settle(spec: &str, millis: Option<i64>) -> (out: Result<i64, ParseTimeError>)
    ensures
        settles(spec@, millis, out),
{
    match millis {
        None => Err(ParseTimeError::Unparsed(spec.to_owned())),
        Some(millis) => match millis_to_apple(millis) {
            Some(value) => Ok(value),
            None => Err(ParseTimeError::OutOfRange(spec.to_owned())),
        },
    }
}

/// [`since_to_apple_date`], at a given time and with a given reading of the
/// clock on the wall for a date that has no offset.
pub fn since_at(spec: &str, now: i64, local: Option<i64>) -> (out: Result<i64, ParseTimeError>)
    ensures
        match duration(text::trim(spec@)) {
            Some(ago) => settles(spec@, Some(clamped(now - clamped(ago as int)) as i64), out),
            None => match reading(text::trim(spec@)) {
                Reading::Instant(millis) => settles(spec@, Some(millis), out),
                Reading::Clock(_) => settles(spec@, local, out),
                Reading::Nothing => settles(spec@, None, out),
            },
        },
{
    let chars = chars_of(spec);
    let wanted = trimmed(&chars);
    if let Some(millis) = parse_duration(&wanted, now) {
        return settle(spec, Some(millis));
    }
    let wanted = text_of(&wanted);
    match read_date(wanted.as_str()) {
        Reading::Instant(millis) => settle(spec, Some(millis)),
        Reading::Clock(_) => settle(spec, local),
        Reading::Nothing => settle(spec, None),
    }
}

/// Parse a duration like `2h` or `7d`, or a date, into an Apple timestamp.
///
/// A duration counts back from now, and a date without an offset is read on
/// this machine's clock; every other text is settled by what it says.
pub fn since_to_apple_date(spec: &str) -> (out: Result<i64, ParseTimeError>)
    ensures
        match duration(text::trim(spec@)) {
            Some(ago) => exists|now: i64|
                iso::in_calendar(now as int) && #[trigger] settles(
                    spec@,
                    Some(clamped(now - clamped(ago as int)) as i64),
                    out,
                ),
            None => match reading(text::trim(spec@)) {
                Reading::Instant(millis) => settles(spec@, Some(millis), out),
                Reading::Clock(millis) => exists|local: Option<i64>|
                    (local is Some ==> within_a_day(millis, local->0)) && #[trigger] settles(
                        spec@,
                        local,
                        out,
                    ),
                Reading::Nothing => settles(spec@, None, out),
            },
        },
{
    let now: i64 = now_millis();
    let chars = chars_of(spec);
    let wanted = text_of(&trimmed(&chars));
    let local = parse_date(wanted.as_str());
    since_at(spec, now, local)
}

/// The bytes that open an NSArchiver typedstream: 4, 11, `streamtyped`.
pub open spec fn stream_header() -> Seq<u8> {
    seq![4u8, 11, 115, 116, 114, 101, 97, 109, 116, 121, 112, 101, 100]
}

/// `NSString`.
pub open spec fn string_class() -> Seq<u8> {
    seq![78u8, 83, 83, 116, 114, 105, 110, 103]
}

/// `NSMutableString`.
pub open spec fn mutable_string_class() -> Seq<u8> {
    seq![78u8, 83, 77, 117, 116, 97, 98, 108, 101, 83, 116, 114, 105, 110, 103]
}

/// Type marker introducing a C string in a typedstream.
pub const STRING_MARKER: u8 = 0x2b;

pub const INT_16: u8 = 0x81;

pub const INT_32: u8 = 0x82;

pub const INT_64: u8 = 0x83;

/// `needle` sits in `data` with its first byte at `at`.
pub open spec fn bytes_at(data: Seq<u8>, needle: Seq<u8>, at: int) -> bool {
    0 <= at && at + needle.len() <= data.len() && data.subrange(at, at + needle.len() as int)
        == needle
}

/// The first place at or after `from` where `needle` sits in `data`.
pub open spec fn first_from(data: Seq<u8>, needle: Seq<u8>, from: int) -> Option<int>
    decreases data.len() - from,
{
    if from >= data.len() || from + needle.len() > data.len() {
        None
    } else if bytes_at(data, needle, from) {
        Some(from)
    } else {
        first_from(data, needle, from + 1)
    }
}

/// Whether `needle` sits in `data` at `at`.
fn is_bytes_at(data: &[u8], needle: &[u8], at: usize) -> (yes: bool)
    ensures
        yes == bytes_at(data@, needle@, at as int),
{
    if data.len() < at || data.len() - at < needle.len() {
        return false;
    }
    let size: usize = data.len();
    for i in 0..needle.len()
        invariant
            at + needle@.len() <= data@.len() == size,
            forall|j: int| 0 <= j < i ==> data@[at + j] == needle@[j],
    {
        if data[at + i] != needle[i] {
            proof {
                let window = data@.subrange(at as int, at + needle@.len() as int);
                assert(window[i as int] != needle@[i as int]);
            }
            return false;
        }
    }
    assert(data@.subrange(at as int, at + needle@.len() as int) =~= needle@);
    true
}

/// The first place at or after `from` where `needle` sits in `data`.
pub fn find(data: &[u8], needle: &[u8], from: usize) -> (out: Option<usize>)
    requires
        from <= data@.len(),
        needle@.len() > 0,
    ensures
        out is Some <==> first_from(data@, needle@, from as int) is Some,
        out is Some ==> out->0 == first_from(data@, needle@, from as int)->0,
        out is Some ==> from <= out->0 && out->0 + needle@.len() <= data@.len(),
{
    let size: usize = data.len();
    let mut at: usize = from;
    while at < data.len() && needle.len() <= size - at
        invariant
            from <= at <= data@.len() == size,
            needle@.len() > 0,
            first_from(data@, needle@, from as int) == first_from(data@, needle@, at as int),
        decreases data@.len() - at,
    {
        if is_bytes_at(data, needle, at) {
            return Some(at);
        }
        at += 1;
    }
    None
}

/// The number these bytes spell, lowest first.
pub open spec fn little_endian(bytes: Seq<u8>) -> nat
    decreases bytes.len(),
{
    if bytes.len() == 0 {
        0
    } else {
        bytes[0] as nat + 256 * little_endian(bytes.drop_first())
    }
}

/// How many bytes follow a width marker.
pub open spec fn width(marker: u8) -> Option<nat> {
    if marker == INT_16 {
        Some(2)
    } else if marker == INT_32 {
        Some(4)
    } else if marker == INT_64 {
        Some(8)
    } else {
        None
    }
}

/// The typedstream integer at `at` and where the bytes after it start. A single
/// **signed** byte unless a width marker says how many bytes follow; one too
/// large for an `i64` reads as the largest there is.
pub open spec fn int_at(data: Seq<u8>, at: int) -> Option<(int, int)> {
    if at >= data.len() {
        None
    } else {
        match width(data[at]) {
            None => Some((if data[at] < 128 {
                data[at] as int
            } else {
                data[at] - 256
            }, at + 1)),
            Some(wide) => if at + 1 + wide > data.len() {
                None
            } else {
                let value = little_endian(data.subrange(at + 1, at + 1 + wide as int));
                Some((clamped(value as int), at + 1 + wide))
            },
        }
    }
}

/// A typedstream integer and where the bytes after it start.
pub struct ReadInt {
    pub value: i64,
    pub next: usize,
}

/// Two hundred and fifty-six to the `n`.
spec fn base(n: nat) -> nat
    decreases n,
{
    if n == 0 {
        1
    } else {
        256 * base((n - 1) as nat)
    }
}

proof fn base_of_eight(n: nat)
    requires
        n <= 8,
    ensures
        base(n) <= 0x1_0000_0000_0000_0000,
{
    reveal_with_fuel(base, 9);
}

/// The number spelled by `data[from..to]`, lowest byte first.
fn read_bytes(data: &[u8], from: usize, to: usize) -> (out: u64)
    requires
        from <= to <= data@.len(),
        to - from <= 8,
    ensures
        out == little_endian(data@.subrange(from as int, to as int)),
{
    let mut at: usize = to;
    let mut out: u64 = 0;
    assert(data@.subrange(to as int, to as int) =~= Seq::<u8>::empty());
    while at > from
        invariant
            from <= at <= to <= data@.len(),
            to - from <= 8,
            out == little_endian(data@.subrange(at as int, to as int)),
            out < base((to - at) as nat),
        decreases at,
    {
        proof {
            let more = data@.subrange(at - 1, to as int);
            assert(more.drop_first() =~= data@.subrange(at as int, to as int));
            base_of_eight((to - at + 1) as nat);
            assert(base((to - at + 1) as nat) == 256 * base((to - at) as nat));
        }
        at -= 1;
        out = out * 256 + data[at] as u64;
    }
    out
}

/// Read a typedstream integer.
///
/// Values are a single **signed** byte unless escaped by a width marker, so
/// anything from 0x80 up that is not a marker reads negative — which the caller
/// rejects, and should.
pub fn read_int(data: &[u8], offset: usize) -> (out: Option<ReadInt>)
    ensures
        out is Some <==> int_at(data@, offset as int) is Some,
        out is Some ==> int_at(data@, offset as int) == Some(
            ((out->0).value as int, (out->0).next as int),
        ) && (out->0).next <= data@.len(),
{
    if offset >= data.len() {
        return None;
    }
    let marker: u8 = data[offset];
    let wide: usize = if marker == INT_16 {
        2
    } else if marker == INT_32 {
        4
    } else if marker == INT_64 {
        8
    } else {
        let value: i64 = if marker < 128 {
            marker as i64
        } else {
            marker as i64 - 256
        };
        return Some(ReadInt { value, next: offset + 1 });
    };
    let start: usize = offset + 1;
    if data.len() - start < wide {
        return None;
    }
    let raw: u64 = read_bytes(data, start, start + wide);
    let value: i64 = if raw > i64::MAX as u64 {
        i64::MAX
    } else {
        raw as i64
    };
    Some(ReadInt { value, next: start + wide })
}

/// Where the class name of an archived string is: `NSString` if it occurs, and
/// otherwise `NSMutableString`.
pub open spec fn class_at(data: Seq<u8>) -> Option<int> {
    match first_from(data, string_class(), 0) {
        Some(at) => Some(at),
        None => first_from(data, mutable_string_class(), 0),
    }
}

/// The bytes of the string in an archived NSAttributedString: after the class
/// name, after the type marker, as many as the length says — where the blob is
/// a typedstream, the length is positive and the bytes are all there.
pub open spec fn archived(data: Seq<u8>) -> Option<Seq<u8>> {
    if !stream_header().is_prefix_of(data) {
        None
    } else {
        match class_at(data) {
            None => None,
            Some(start) => match first_from(data, seq![STRING_MARKER], start) {
                None => None,
                Some(marker) => match int_at(data, marker + 1) {
                    None => None,
                    Some((length, next)) => if length <= 0 || next + length > data.len() {
                        None
                    } else {
                        Some(data.subrange(next, next + length))
                    },
                },
            },
        }
    }
}

/// What `String::from_utf8_lossy` makes of bytes.
pub uninterp spec fn utf8_lossy(bytes: Seq<u8>) -> Seq<char>;

/// `String::from_utf8_lossy`: bytes read as UTF-8, with a replacement character
/// where they are not. A function of the bytes, and bytes that are UTF-8
/// throughout read as exactly the text they encode.
#[verifier::external_body]
fn read_lossy(bytes: &[u8]) -> (out: String)
    ensures
        out@ == utf8_lossy(bytes@),
        vstd::utf8::valid_utf8(bytes@) ==> out@ == vstd::utf8::decode_utf8(bytes@),
{
    String::from_utf8_lossy(bytes).into_owned()
}

/// The bytes of the archived string in a blob.
fn archived_bytes(data: &[u8]) -> (out: Option<Vec<u8>>)
    ensures
        out is Some <==> archived(data@) is Some,
        out is Some ==> out->0@ == archived(data@)->0,
{
    let header: Vec<u8> = vec![4, 11, 115, 116, 114, 101, 97, 109, 116, 121, 112, 101, 100];
    assert(header@ =~= stream_header());
    proof {
        if header@.len() <= data@.len() {
            assert(data@.subrange(0, header@.len() as int) =~= data@.take(header@.len() as int));
        }
    }
    if !is_bytes_at(data, &header, 0) {
        return None;
    }
    let class: Vec<u8> = vec![78, 83, 83, 116, 114, 105, 110, 103];
    assert(class@ =~= string_class());
    let start: usize = match find(data, &class, 0) {
        Some(at) => at,
        None => {
            let mutable: Vec<u8> = vec![
                78, 83, 77, 117, 116, 97, 98, 108, 101, 83, 116, 114, 105, 110, 103,
            ];
            assert(mutable@ =~= mutable_string_class());
            match find(data, &mutable, 0) {
                Some(at) => at,
                None => return None,
            }
        },
    };
    let size: usize = data.len();
    let kind: Vec<u8> = vec![STRING_MARKER];
    assert(kind@ =~= seq![STRING_MARKER]);
    let marker: usize = match find(data, &kind, start) {
        Some(at) => at,
        None => return None,
    };
    let length = match read_int(data, marker + 1) {
        Some(length) => length,
        None => return None,
    };
    if length.value <= 0 || length.value as u64 > (size - length.next) as u64 {
        return None;
    }
    let end: usize = length.next + length.value as usize;
    let mut out: Vec<u8> = Vec::new();
    for i in length.next..end
        invariant
            length.next <= i <= end <= data@.len(),
            out@ == data@.subrange(length.next as int, i as int),
    {
        out.push(data[i]);
    }
    Some(out)
}

/// The text of an archived NSAttributedString, if there is one in the blob.
pub open spec fn archived_text(blob: Option<Seq<u8>>) -> Option<Seq<char>> {
    match blob {
        None => None,
        Some(data) => match archived(data) {
            None => None,
            Some(bytes) => Some(utf8_lossy(bytes)),
        },
    }
}

/// Extract the message text from an archived NSAttributedString.
///
/// Modern macOS leaves `message.text` NULL and stores the body here. Lossy: a
/// body that is nearly all readable is worth more than nothing at all, and one
/// that is readable throughout comes back exactly.
pub fn decode_attributed_body(blob: Option<&[u8]>) -> (out: Option<String>)
    ensures
        blob is None ==> out is None,
        blob is Some ==> text::maybe(out) == archived_text(Some(blob->0@)),
        out is Some && vstd::utf8::valid_utf8(archived(blob->0@)->0) ==> out->0@
            == vstd::utf8::decode_utf8(archived(blob->0@)->0),
{
    match blob {
        None => None,
        Some(data) => match archived_bytes(data) {
            None => None,
            Some(bytes) => Some(read_lossy(&bytes)),
        },
    }
}

/// Return a message's text, falling back to the archived body.
pub fn message_body(text: Option<String>, attributed_body: Option<&[u8]>) -> (out: Option<String>)
    ensures
        text is Some ==> out == text,
        text is None && attributed_body is None ==> out is None,
        text is None && attributed_body is Some ==> text::maybe(out) == archived_text(
            Some(attributed_body->0@),
        ),
{
    match text {
        Some(text) => Some(text),
        None => decode_attributed_body(attributed_body),
    }
}

/// How a typedstream writes a length: one byte up to 127, and a width marker
/// with two, four or eight bytes above that.
pub open spec fn written_length(length: nat, bytes: Seq<u8>) -> bool {
    ||| length < 128 && bytes == seq![length as u8]
    ||| bytes.len() == 3 && bytes[0] == INT_16 && little_endian(bytes.drop_first()) == length
    ||| bytes.len() == 5 && bytes[0] == INT_32 && little_endian(bytes.drop_first()) == length
    ||| bytes.len() == 9 && bytes[0] == INT_64 && little_endian(bytes.drop_first()) == length
}

/// Nothing is found before the first place a needle sits.
proof fn first_is_found(data: Seq<u8>, needle: Seq<u8>, from: int, at: int)
    requires
        from <= at,
        needle.len() > 0,
        bytes_at(data, needle, at),
        forall|i: int| from <= i < at ==> !bytes_at(data, needle, i),
    ensures
        first_from(data, needle, from) == Some(at),
    decreases at - from,
{
    if from < at {
        assert(!bytes_at(data, needle, from));
        first_is_found(data, needle, from + 1, at);
    }
}

/// A body that was archived reads back: whatever stands in the archive before
/// the class name and between it and the type marker, the text after the marker
/// and its length comes back character for character.
pub proof fn an_archived_body_reads_back(
    before: Seq<u8>,
    between: Seq<u8>,
    length: Seq<u8>,
    body: Seq<char>,
    after: Seq<u8>,
)
    requires
        body.len() > 0,
        vstd::utf8::encode_utf8(body).len() <= i64::MAX,
        written_length(vstd::utf8::encode_utf8(body).len(), length),
        stream_header().is_prefix_of(before),
        forall|i: int|
            0 <= i < before.len() ==> !bytes_at(
                before + string_class() + between + seq![STRING_MARKER] + length
                    + vstd::utf8::encode_utf8(body) + after,
                string_class(),
                i,
            ),
        forall|i: int| 0 <= i < between.len() ==> between[i] != STRING_MARKER,
    ensures
        ({
            let blob = before + string_class() + between + seq![STRING_MARKER] + length
                + vstd::utf8::encode_utf8(body) + after;
            archived(blob) == Some(vstd::utf8::encode_utf8(body))
        }),
        vstd::utf8::decode_utf8(vstd::utf8::encode_utf8(body)) == body,
        vstd::utf8::valid_utf8(vstd::utf8::encode_utf8(body)),
{
    let bytes = vstd::utf8::encode_utf8(body);
    let blob = before + string_class() + between + seq![STRING_MARKER] + length + bytes + after;
    vstd::utf8::encode_utf8_valid_utf8(body);
    vstd::utf8::encode_utf8_decode_utf8(body);
    vstd::utf8::encode_utf8_first_scalar(body);
    let start = before.len() as int;
    let marker = start + 8 + between.len();
    assert(blob.take(stream_header().len() as int) =~= before.take(stream_header().len() as int));
    assert(blob.subrange(start, start + 8) =~= string_class());
    first_is_found(blob, string_class(), 0, start);
    assert(blob.subrange(marker, marker + 1) =~= seq![STRING_MARKER]);
    assert forall|i: int| start <= i < marker implies !bytes_at(blob, seq![STRING_MARKER], i) by {
        let window = blob.subrange(i, i + 1);
        assert(window[0] == blob[i]);
        if i < start + 8 {
            assert(blob[i] == string_class()[i - start]);
        } else {
            assert(blob[i] == between[i - start - 8]);
        }
    }
    first_is_found(blob, seq![STRING_MARKER], start, marker);
    let at = marker + 1;
    let next = at + length.len();
    assert(blob[at] == length[0]);
    if length.len() > 1 {
        assert(blob.subrange(at + 1, next) =~= length.drop_first());
    }
    assert(blob.subrange(next, next + bytes.len()) =~= bytes);
    assert(bytes.len() > 0) by {
        if bytes.len() == 0 {
            assert(vstd::utf8::decode_utf8(bytes).len() == 0);
        }
    }
}

/// Nothing is invented: what reads back from a blob is a stretch of its bytes.
pub proof fn a_body_comes_from_its_blob(data: Seq<u8>)
    requires
        archived(data) is Some,
    ensures
        exists|from: int, to: int|
            0 <= from < to <= data.len() && archived(data)->0 == #[trigger] data.subrange(from, to),
{
    let start = class_at(data)->0;
    let marker = first_from(data, seq![STRING_MARKER], start)->0;
    let (length, next) = int_at(data, marker + 1)->0;
    first_is_in_range(data, string_class(), 0);
    first_is_in_range(data, mutable_string_class(), 0);
    first_is_in_range(data, seq![STRING_MARKER], start);
    assert(archived(data)->0 == data.subrange(next, next + length));
}

proof fn first_is_in_range(data: Seq<u8>, needle: Seq<u8>, from: int)
    ensures
        first_from(data, needle, from) is Some ==> from <= first_from(data, needle, from)->0,
    decreases data.len() - from,
{
    if from < data.len() && from + needle.len() <= data.len() && !bytes_at(data, needle, from) {
        first_is_in_range(data, needle, from + 1);
    }
}

/// The units measure each other as they should: sixty minutes to the hour, twenty-four
/// hours to the day, seven days to the week, and nothing else is a unit.
pub proof fn the_units_measure_each_other(c: char)
    ensures
        unit('m') == Some(60 * 1_000nat),
        unit('h') == Some(60 * unit('m')->0),
        unit('d') == Some(24 * unit('h')->0),
        unit('w') == Some(7 * unit('d')->0),
        unit(c) is Some <==> c == 'm' || c == 'h' || c == 'd' || c == 'w',
{
}

/// A timestamp in seconds and the same one in nanoseconds are the same date.
pub proof fn seconds_and_nanoseconds_agree(seconds: i64)
    requires
        1_000 < seconds < 9_000_000_000 || -9_000_000_000 < seconds < -1_000,
    ensures
        instant(Some(seconds)) is Some,
        instant(Some((seconds * 1_000_000_000) as i64)) == instant(Some(seconds)),
{
    let value = seconds * 1_000_000_000;
    assert(value as i64 == value);
    if seconds < 0 {
        assert((-value) / 1_000_000 == -seconds * 1_000);
    } else {
        assert(value / 1_000_000 == seconds * 1_000);
    }
}

/// A later timestamp is never an earlier date, and a second more is a second later.
pub proof fn a_later_timestamp_is_a_later_date(a: i64, b: i64)
    requires
        a < b,
        a != 0,
        b != 0,
    ensures
        a > NANOSECOND_THRESHOLD ==> instant(Some(a))->0 <= instant(Some(b))->0,
        b < -NANOSECOND_THRESHOLD ==> instant(Some(a))->0 <= instant(Some(b))->0,
        -NANOSECOND_THRESHOLD <= a && b <= NANOSECOND_THRESHOLD ==> instant(Some(b))->0 - instant(
            Some(a),
        )->0 == (b - a) * 1_000,
        a > NANOSECOND_THRESHOLD && b - a == 1_000_000_000 ==> instant(Some(b))->0 - instant(
            Some(a),
        )->0 == 1_000,
{
}

/// What a cutoff comes to is the timestamp of its instant, and where there is none the error
/// repeats what was typed.
pub proof fn a_cutoff_is_the_timestamp_of_its_instant(
    spec: Seq<char>,
    millis: i64,
    out: Result<i64, ParseTimeError>,
)
    requires
        settles(spec, Some(millis), out),
    ensures
        out is Ok && (millis - APPLE_EPOCH_OFFSET_MS > 1_000_000 || millis - APPLE_EPOCH_OFFSET_MS
            < -1_000_000) ==> instant(Some(out->Ok_0)) == Some(millis as int),
        out matches Err(error) ==> (error matches ParseTimeError::OutOfRange(typed) && typed@
            == spec),
        forall|none: Result<i64, ParseTimeError>|
            #[trigger] settles(spec, None, none) ==> (none matches Err(ParseTimeError::Unparsed(
                typed,
            )) && typed@ == spec),
{
    if out is Ok && (millis - APPLE_EPOCH_OFFSET_MS > 1_000_000 || millis - APPLE_EPOCH_OFFSET_MS
        < -1_000_000) {
        a_date_round_trips(millis, out->Ok_0);
    }
}

} // verus!
