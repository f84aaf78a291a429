//! The config file, which exists to hold one key.
//!
//! `send = true` in `~/.config/msg/config.toml` is the first of the two gates on
//! sending: it prevents accidents and produces a refusal that names the key. The
//! second gate is the Automation grant, which is the one that holds when this
//! file does not.
//!
//! The daemon reads it, not the client. A check a caller performs on itself is
//! advice, not a gate.
use vstd::prelude::*;

use crate::access::{self, path_under, set_to};
use crate::text::{self, chars_of, lines_of, strip_front, trim_front, trimmed};

verus! {

/// Where the config file is: where `MSG_CONFIG` says, else in the home directory.
pub fn config_path(environment: Option<&str>, home: &str) -> (out: String)
    ensures
        out@ == access::setting_or(
            text::maybe_str(environment),
            access::under(home@, ".config/msg/config.toml"@),
        ),
{
    match set_to(environment) {
        Some(path) => path.to_owned(),
        None => path_under(home, ".config/msg/config.toml"),
    }
}

/// What the config file says.
#[derive(Debug, Clone, Copy, PartialEq, Eq, Structural)]
pub struct Config {
    pub send: bool,
}

/// Nothing more is said on a line: white space, and perhaps a comment.
pub open spec fn said(rest: Seq<char>) -> bool {
    text::trim(rest).len() == 0 || text::trim(rest)[0] == '#'
}

/// A bare boolean, with nothing more behind it than a comment.
pub open spec fn bare(value: Seq<char>) -> Option<bool> {
    match text::stripped(value, "true"@) {
        Some(rest) => if said(rest) {
            Some(true)
        } else {
            None
        },
        None => match text::stripped(value, "false"@) {
            Some(rest) => if said(rest) {
                Some(false)
            } else {
                None
            },
            None => None,
        },
    }
}

/// What a line of the file says of `send`: `send = true` or `send = false`, and
/// nothing where it says anything else.
pub open spec fn switch(line: Seq<char>) -> Option<bool> {
    match text::stripped(text::trim_start(line), "send"@) {
        None => None,
        Some(rest) => match text::stripped(text::trim_start(rest), "="@) {
            None => None,
            Some(value) => bare(text::trim_start(value)),
        },
    }
}

/// Whether nothing more is said on a line.
fn is_said(rest: &[char]) -> (yes: bool)
    ensures
        yes == said(rest@),
{
    let rest = trimmed(rest);
    rest.len() == 0 || rest[0] == '#'
}

/// Read one `send = true|false` line, and nothing else.
///
/// Deliberately not a TOML parser. One flat `key = value` covers the whole of
/// what this file is allowed to say, and anything unrecognised is ignored.
pub fn parse_send(line: &str) -> (out: Option<bool>)
    ensures
        out == switch(line@),
{
    let line = trim_front(&chars_of(line));
    let rest = match strip_front(&line, "send") {
        Some(rest) => trim_front(&rest),
        None => return None,
    };
    let value = match strip_front(&rest, "=") {
        Some(value) => trim_front(&value),
        None => return None,
    };
    match strip_front(&value, "true") {
        Some(rest) => if is_said(&rest) {
            Some(true)
        } else {
            None
        },
        None => match strip_front(&value, "false") {
            Some(rest) => if is_said(&rest) {
                Some(false)
            } else {
                None
            },
            None => None,
        },
    }
}

/// What the first of these lines to say anything says.
pub open spec fn first_said(lines: Seq<Seq<char>>) -> Option<bool>
    decreases lines.len(),
{
    if lines.len() == 0 {
        None
    } else {
        match first_said(lines.drop_last()) {
            Some(send) => Some(send),
            None => switch(lines.last()),
        }
    }
}

/// What a file says, if there is one: sending is off unless it says otherwise.
pub open spec fn sending(contents: Option<Seq<char>>) -> bool {
    match contents {
        Some(contents) => first_said(text::lines(contents)) == Some(true),
        None => false,
    }
}

/// What the contents of the config file say, or what stands without one.
pub fn read_config(contents: Option<&str>) -> (out: Config)
    ensures
        out.send == sending(text::maybe_str(contents)),
{
    let whole: &str = match contents {
        Some(whole) => whole,
        None => return Config { send: false },
    };
    let lines = lines_of(whole);
    let ghost all = text::lines(whole@);
    for i in 0..lines.len()
        invariant
            text::all_of(lines@) == all,
            all == text::lines(whole@),
            contents == Some(whole),
            first_said(all.take(i as int)) is None,
    {
        proof {
            assert(all.take(i + 1).drop_last() =~= all.take(i as int));
            assert(all.take(i + 1).last() == lines@[i as int]@);
        }
        if let Some(send) = parse_send(lines[i].as_str()) {
            proof {
                the_first_word_stands(all, i + 1);
            }
            return Config { send };
        }
    }
    assert(all.take(all.len() as int) =~= all);
    Config { send: false }
}

/// What the first lines of a file say stands, whatever comes behind them.
pub proof fn the_first_word_stands(lines: Seq<Seq<char>>, n: int)
    requires
        0 <= n <= lines.len(),
        first_said(lines.take(n)) is Some,
    ensures
        first_said(lines) == first_said(lines.take(n)),
    decreases lines.len(),
{
    if n == lines.len() {
        assert(lines.take(n) =~= lines);
    } else {
        assert(lines.drop_last().take(n) =~= lines.take(n));
        the_first_word_stands(lines.drop_last(), n);
    }
}

/// Sending is off unless some line turns it on outright.
pub proof fn only_a_line_turns_sending_on(contents: Seq<char>) -> (i: int)
    requires
        sending(Some(contents)),
    ensures
        0 <= i < text::lines(contents).len(),
        switch(text::lines(contents)[i]) == Some(true),
{
    said_somewhere(text::lines(contents))
}

proof fn said_somewhere(lines: Seq<Seq<char>>) -> (i: int)
    requires
        first_said(lines) is Some,
    ensures
        0 <= i < lines.len(),
        switch(lines[i]) == first_said(lines),
    decreases lines.len(),
{
    if first_said(lines.drop_last()) is Some {
        let i = said_somewhere(lines.drop_last());
        assert(lines[i] == lines.drop_last()[i]);
        i
    } else {
        lines.len() - 1
    }
}

/// The refusal the daemon gives when sending is switched off.
pub open spec fn disabled(path: Seq<char>) -> Seq<char> {
    "sending is disabled.\nAdd `send = true` to "@ + path
        + " to enable it.\nmacOS also has to allow msgd to control Messages, under System Settings >\nPrivacy & Security > Automation."@
}

/// The refusal the daemon gives when sending is switched off.
pub fn disabled_message(path: &str) -> (out: String)
    ensures
        out@ == disabled(path@),
{
    let mut out: String = "sending is disabled.\nAdd `send = true` to ".to_owned();
    out.append(path);
    out.append(
        " to enable it.\nmacOS also has to allow msgd to control Messages, under System Settings >\nPrivacy & Security > Automation.",
    );
    out
}

/// White space and nothing else.
pub open spec fn blank(s: Seq<char>) -> bool {
    forall|i: int| 0 <= i < s.len() ==> text::white(#[trigger] s[i])
}

proof fn blanks_are_skipped(gap: Seq<char>, rest: Seq<char>)
    requires
        blank(gap),
        rest.len() > 0,
        !text::white(rest[0]),
    ensures
        text::trim_start(gap + rest) == rest,
    decreases gap.len(),
{
    if gap.len() == 0 {
        assert(gap + rest =~= rest);
    } else {
        assert((gap + rest)[0] == gap[0]);
        assert((gap + rest).drop_first() =~= gap.drop_first() + rest);
        assert forall|i: int| 0 <= i < gap.drop_first().len() implies text::white(
            #[trigger] gap.drop_first()[i],
        ) by {
            assert(gap[i + 1] == gap.drop_first()[i]);
        }
        blanks_are_skipped(gap.drop_first(), rest);
    }
}

proof fn what_is_skipped_is_blank(s: Seq<char>) -> (gap: Seq<char>)
    ensures
        blank(gap),
        s == gap + text::trim_start(s),
    decreases s.len(),
{
    if s.len() > 0 && text::white(s[0]) {
        let rest = what_is_skipped_is_blank(s.drop_first());
        let gap = seq![s[0]] + rest;
        assert(s =~= seq![s[0]] + s.drop_first());
        assert(seq![s[0]] + (rest + text::trim_start(s)) =~= gap + text::trim_start(s));
        gap
    } else {
        assert(s =~= Seq::<char>::empty() + s);
        Seq::empty()
    }
}

/// White space, and perhaps a comment behind it.
pub open spec fn nothing_more(rest: Seq<char>) -> bool {
    blank(rest) || exists|gap: Seq<char>, comment: Seq<char>|
        blank(gap) && rest == #[trigger] (gap.push('#') + comment)
}

proof fn nothing_is_left_of_blanks(s: Seq<char>)
    requires
        blank(s),
    ensures
        text::trim(s).len() == 0,
    decreases s.len(),
{
    if s.len() > 0 {
        assert(text::white(s[0]));
        assert forall|i: int| 0 <= i < s.drop_first().len() implies text::white(
            #[trigger] s.drop_first()[i],
        ) by {
            assert(s[i + 1] == s.drop_first()[i]);
        }
        nothing_is_left_of_blanks(s.drop_first());
    }
}

proof fn what_is_cut_behind_is_blank(s: Seq<char>)
    ensures
        text::trim_end(s).len() == 0 ==> blank(s),
        text::trim_end(s).len() > 0 ==> s.len() > 0 && text::trim_end(s)[0] == s[0],
        s.len() > 0 && !text::white(s[0]) ==> text::trim_end(s).len() > 0,
    decreases s.len(),
{
    if s.len() > 0 && text::white(s.last()) {
        let front = s.drop_last();
        what_is_cut_behind_is_blank(front);
        if text::trim_end(s).len() == 0 {
            assert forall|i: int| 0 <= i < s.len() implies text::white(#[trigger] s[i]) by {
                if i < front.len() {
                    assert(front[i] == s[i]);
                }
            }
        }
        if front.len() == 0 {
            assert(s[0] == s.last());
        }
    }
}

/// Nothing more is said where there is nothing more than white space and a comment.
pub proof fn a_comment_says_nothing(rest: Seq<char>)
    ensures
        said(rest) <==> nothing_more(rest),
{
    let gap = what_is_skipped_is_blank(rest);
    let tail = text::trim_start(rest);
    what_is_cut_behind_is_blank(tail);
    if said(rest) {
        if text::trim(rest).len() == 0 {
            assert forall|i: int| 0 <= i < rest.len() implies text::white(#[trigger] rest[i]) by {
                if i < gap.len() {
                    assert(rest[i] == gap[i]);
                } else {
                    assert(rest[i] == tail[i - gap.len()]);
                }
            }
        } else {
            assert(rest =~= gap.push('#') + tail.drop_first());
        }
    }
    if blank(rest) {
        nothing_is_left_of_blanks(rest);
    } else if nothing_more(rest) {
        let (space, comment) = choose|space: Seq<char>, comment: Seq<char>|
            blank(space) && rest == #[trigger] (space.push('#') + comment);
        let shown = seq!['#'] + comment;
        assert(rest =~= space + shown);
        blanks_are_skipped(space, shown);
    }
}

/// A line says `send = `, a word and nothing more than a comment, with white space wherever
/// it likes.
pub open spec fn says(line: Seq<char>, word: Seq<char>) -> bool {
    exists|a: Seq<char>, b: Seq<char>, c: Seq<char>, rest: Seq<char>|
        blank(a) && blank(b) && blank(c) && nothing_more(rest) && line == #[trigger] (a + "send"@
            + b + "="@ + c + word + rest)
}

proof fn a_word_that_is_said_counts(
    a: Seq<char>,
    b: Seq<char>,
    c: Seq<char>,
    word: Seq<char>,
    rest: Seq<char>,
)
    requires
        blank(a),
        blank(b),
        blank(c),
        nothing_more(rest),
        word == "true"@ || word == "false"@,
    ensures
        switch(a + "send"@ + b + "="@ + c + word + rest) == Some(word == "true"@),
{
    reveal_strlit("send");
    reveal_strlit("=");
    reveal_strlit("true");
    reveal_strlit("false");
    let line = a + "send"@ + b + "="@ + c + word + rest;
    let last = word + rest;
    let value = c + last;
    let third = "="@ + value;
    let second = b + third;
    let first = "send"@ + second;
    assert(line =~= a + first);
    blanks_are_skipped(a, first);
    assert("send"@.is_prefix_of(first)) by {
        assert(first.take(4) =~= "send"@);
    }
    assert(first.skip(4) =~= second);
    blanks_are_skipped(b, third);
    assert("="@.is_prefix_of(third)) by {
        assert(third.take(1) =~= "="@);
    }
    assert(third.skip(1) =~= value);
    blanks_are_skipped(c, last);
    a_comment_says_nothing(rest);
    assert(last.skip(word.len() as int) =~= rest);
    assert(word.is_prefix_of(last)) by {
        assert(last.take(word.len() as int) =~= word);
    }
    if word == "false"@ {
        assert(last[0] == 'f');
        assert(!"true"@.is_prefix_of(last));
    }
}

proof fn a_switch_is_said(line: Seq<char>, word: Seq<char>)
    requires
        word == "true"@ || word == "false"@,
        switch(line) == Some(word == "true"@),
    ensures
        says(line, word),
{
    reveal_strlit("true");
    reveal_strlit("false");
    let first = text::trim_start(line);
    let a = what_is_skipped_is_blank(line);
    let second = first.skip("send"@.len() as int);
    assert(first =~= "send"@ + second);
    let third = text::trim_start(second);
    let b = what_is_skipped_is_blank(second);
    let value = third.skip("="@.len() as int);
    assert(third =~= "="@ + value);
    let last = text::trim_start(value);
    let c = what_is_skipped_is_blank(value);
    let rest = last.skip(word.len() as int);
    assert("true"@.len() != "false"@.len());
    assert(word.is_prefix_of(last));
    assert(last =~= word + rest);
    a_comment_says_nothing(rest);
    assert(line =~= a + "send"@ + b + "="@ + c + word + rest);
}

/// Sending is switched on or off by a line of exactly that form and by no other.
pub proof fn a_switch_is_a_line_of_one_form(line: Seq<char>)
    ensures
        switch(line) == Some(true) <==> says(line, "true"@),
        switch(line) == Some(false) <==> says(line, "false"@),
{
    reveal_strlit("true");
    reveal_strlit("false");
    assert("true"@.len() != "false"@.len());
    if switch(line) == Some(true) {
        a_switch_is_said(line, "true"@);
    }
    if switch(line) == Some(false) {
        a_switch_is_said(line, "false"@);
    }
    if says(line, "true"@) {
        let (a, b, c, rest) = choose|a: Seq<char>, b: Seq<char>, c: Seq<char>, rest: Seq<char>|
            blank(a) && blank(b) && blank(c) && nothing_more(rest) && line == #[trigger] (a
                + "send"@ + b + "="@ + c + "true"@ + rest);
        a_word_that_is_said_counts(a, b, c, "true"@, rest);
    }
    if says(line, "false"@) {
        let (a, b, c, rest) = choose|a: Seq<char>, b: Seq<char>, c: Seq<char>, rest: Seq<char>|
            blank(a) && blank(b) && blank(c) && nothing_more(rest) && line == #[trigger] (a
                + "send"@ + b + "="@ + c + "false"@ + rest);
        a_word_that_is_said_counts(a, b, c, "false"@, rest);
    }
}

/// The refusal says where sending is switched on.
pub proof fn a_refusal_says_where_the_switch_is(path: Seq<char>)
    ensures
        text::contains(disabled(path), "`send = true` to "@ + path),
{
    reveal_strlit("sending is disabled.\nAdd `send = true` to ");
    reveal_strlit("`send = true` to ");
    let at = "sending is disabled.\nAdd "@.len() as int;
    reveal_strlit("sending is disabled.\nAdd ");
    let inner = "`send = true` to "@ + path;
    assert(disabled(path).subrange(at, at + inner.len()) =~= inner);
    assert(text::occurs_at(disabled(path), inner, at));
}

} // verus!
