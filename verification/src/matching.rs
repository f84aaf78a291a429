//! Where a needle is allowed to match.
//!
//! One predicate, because a name and a message body have to agree about what a
//! word start is.
use vstd::prelude::*;

use crate::text::{self, chars_of, has, is_at};

verus! {

/// A character from a script written without spaces between words.
pub open spec fn scriptio_continua(c: char) -> bool {
    let n = c as u32;
    ||| 0x1100 <= n <= 0x11ff  // Hangul Jamo
    ||| 0x3040 <= n <= 0x30ff  // Hiragana and Katakana
    ||| 0x3130 <= n <= 0x318f  // Hangul Compatibility Jamo
    ||| 0x3400 <= n <= 0x4dbf  // CJK Unified Ideographs Extension A
    ||| 0x4e00 <= n <= 0x9fff  // CJK Unified Ideographs
    ||| 0xac00 <= n <= 0xd7af  // Hangul syllables
    ||| 0xf900 <= n <= 0xfaff  // CJK Compatibility Ideographs
    ||| 0xff66 <= n <= 0xff9f  // Halfwidth Katakana
    ||| 0x20000 <= n <= 0x2fa1f  // CJK Extension B onwards, and the supplement
}

/// A needle that has a word start of its own to sit on.
pub open spec fn word_shaped(needle: Seq<char>) -> bool {
    needle.len() > 0 && text::alphanumeric(needle[0]) && !scriptio_continua(needle[0])
}

/// A word may start at `at`: nothing alphanumeric stands right before it.
pub open spec fn opens_a_word(s: Seq<char>, at: int) -> bool {
    at == 0 || !text::alphanumeric(s[at - 1])
}

/// Some occurrence of `needle` in `haystack` starts where a word starts.
pub open spec fn begins(haystack: Seq<char>, needle: Seq<char>) -> bool {
    if word_shaped(needle) {
        exists|at: int|
            text::occurs_at(haystack, needle, at) && #[trigger] opens_a_word(haystack, at)
    } else {
        text::contains(haystack, needle)
    }
}

/// Does `needle` begin a word somewhere in `haystack`?
///
/// Both are expected to be lowercased already: one query is matched against
/// many candidates, so folding is the caller's.
///
/// The rule is asymmetric on purpose. A match has to *start* where a word
/// starts, and nothing is asserted about where it ends, so `start` still finds
/// `starting` while `art` stops finding `apartment`. Existential over
/// occurrences: a haystack qualifies when *any* of them begins a word. A needle
/// that is not word-shaped — an emoji, punctuation, a script written without
/// spaces — has no word start to sit on and is matched anywhere.
pub fn begins_a_word(haystack: &str, needle: &str) -> (yes: bool)
    ensures
        yes == begins(haystack@, needle@),
{
    let s = chars_of(haystack);
    let wanted = chars_of(needle);
    if wanted.len() == 0 || !wanted[0].is_alphanumeric() || is_scriptio_continua(wanted[0]) {
        return has(&s, &wanted);
    }
    let mut at: usize = 0;
    while at < s.len()
        invariant
            s@ == haystack@,
            wanted@ == needle@,
            word_shaped(needle@),
            at <= s@.len(),
            forall|j: int|
                0 <= j < at && text::occurs_at(s@, wanted@, j) ==> !#[trigger] opens_a_word(
                    s@,
                    j,
                ),
        decreases s@.len() - at,
    {
        if is_at(&s, &wanted, at) && (at == 0 || !s[at - 1].is_alphanumeric()) {
            assert(opens_a_word(haystack@, at as int));
            return true;
        }
        at += 1;
    }
    false
}

/// Is this character from a script written without spaces between words?
pub fn is_scriptio_continua(c: char) -> (yes: bool)
    ensures
        yes == scriptio_continua(c),
{
    let n: u32 = c as u32;
    (0x1100 <= n && n <= 0x11ff) || (0x3040 <= n && n <= 0x30ff) || (0x3130 <= n && n <= 0x318f)
        || (0x3400 <= n && n <= 0x4dbf) || (0x4e00 <= n && n <= 0x9fff) || (0xac00 <= n && n
        <= 0xd7af) || (0xf900 <= n && n <= 0xfaff) || (0xff66 <= n && n <= 0xff9f) || (0x20000 <= n
        && n <= 0x2fa1f)
}

/// Whether `needle` occurs in a run of text, ignoring case.
pub fn run_contains(run: &str, needle: &str) -> (yes: bool)
    ensures
        yes == text::contains(
            text::lowercase(run@),
            text::lowercase(needle@),
        ),
{
    let folded = chars_of(run.to_lowercase().as_str());
    let wanted = chars_of(needle.to_lowercase().as_str());
    has(&folded, &wanted)
}

/// Nothing begins a word that is not in the text at all: the rule only ever
/// narrows a substring match.
pub proof fn beginning_a_word_is_occurring(haystack: Seq<char>, needle: Seq<char>)
    requires
        begins(haystack, needle),
    ensures
        text::contains(haystack, needle),
{
}

/// The empty needle is in everything.
pub proof fn the_empty_needle_is_everywhere(haystack: Seq<char>)
    ensures
        begins(haystack, Seq::<char>::empty()),
{
    assert(haystack.subrange(0, 0) =~= Seq::<char>::empty());
    assert(text::occurs_at(haystack, Seq::<char>::empty(), 0));
}

/// Nothing is asserted about where a match ends: whatever comes after an
/// occurrence that begins a word, it still begins one.
pub proof fn a_prefix_of_a_word_still_matches(
    before: Seq<char>,
    needle: Seq<char>,
    after: Seq<char>,
)
    requires
        before.len() == 0 || !text::alphanumeric(before.last()),
    ensures
        begins(before + needle + after, needle),
{
    let whole = before + needle + after;
    let at = before.len() as int;
    assert(whole.subrange(at, at + needle.len() as int) =~= needle);
    assert(text::occurs_at(whole, needle, at));
    assert(opens_a_word(whole, at));
}

/// Inside a word is not the start of one: where everything before each
/// occurrence is alphanumeric, a word-shaped needle does not match.
pub proof fn inside_a_word_does_not_match(haystack: Seq<char>, needle: Seq<char>)
    requires
        word_shaped(needle),
        forall|at: int|
            #[trigger] text::occurs_at(haystack, needle, at) ==> at > 0 && text::alphanumeric(
                haystack[at - 1],
            ),
    ensures
        !begins(haystack, needle),
{
    if begins(haystack, needle) {
        let at = choose|at: int|
            text::occurs_at(haystack, needle, at) && #[trigger] opens_a_word(haystack, at);
        assert(text::occurs_at(haystack, needle, at));
    }
}

/// A needle that stands at the start of a text, or behind anything that is neither a letter
/// nor a digit, begins a word there, whatever comes behind it.
pub proof fn a_word_is_found_where_it_stands(
    before: Seq<char>,
    needle: Seq<char>,
    after: Seq<char>,
)
    requires
        before.len() == 0 || !text::alphanumeric(before.last()),
    ensures
        begins(before + needle + after, needle),
{
    let whole = before + needle + after;
    let at = before.len() as int;
    assert(whole.subrange(at, at + needle.len()) =~= needle);
    assert(text::occurs_at(whole, needle, at));
    assert(opens_a_word(whole, at));
}

/// What is written without spaces between words, as Chinese, Japanese and Korean are, is
/// matched wherever it occurs; and so is what begins with no letter or digit at all.
/// Nothing of a Latin, Greek or Cyrillic alphabet is.
pub proof fn an_unspaced_script_is_matched_anywhere(
    before: Seq<char>,
    needle: Seq<char>,
    after: Seq<char>,
)
    requires
        needle.len() > 0,
    ensures
        !text::alphanumeric(needle[0]) ==> begins(before + needle + after, needle),
        0x3040 <= needle[0] as u32 <= 0x30ff ==> begins(before + needle + after, needle),
        0x4e00 <= needle[0] as u32 <= 0x9fff ==> begins(before + needle + after, needle),
        0xac00 <= needle[0] as u32 <= 0xd7af ==> begins(before + needle + after, needle),
        0x1100 <= needle[0] as u32 <= 0x11ff ==> begins(before + needle + after, needle),
        0x20000 <= needle[0] as u32 <= 0x2fa1f ==> begins(before + needle + after, needle),
        (needle[0] as u32) < 0x1100 && text::alphanumeric(needle[0]) ==> word_shaped(needle),
{
    let whole = before + needle + after;
    let at = before.len() as int;
    assert(whole.subrange(at, at + needle.len()) =~= needle);
    assert(text::occurs_at(whole, needle, at));
}

} // verus!
