//! Strings as sequences of characters: the vocabulary the rest of the library
//! states its contracts in, and the operations that compute it.
use vstd::prelude::*;

verus! {

/// What `str::to_lowercase` makes of a text.
pub uninterp spec fn lowercase(text: Seq<char>) -> Seq<char>;

/// A character with the case of an ASCII letter folded away.
pub open spec fn ascii_lower(c: char) -> char {
    if 'A' <= c <= 'Z' {
        (c as u32 + 32) as char
    } else {
        c
    }
}

/// A text with the case of its ASCII letters folded away.
pub open spec fn ascii_lowercase(text: Seq<char>) -> Seq<char> {
    Seq::new(text.len(), |i: int| ascii_lower(text[i]))
}

/// `str::to_lowercase`: the lowercase equivalent of a text, which is a function
/// of its characters alone. A text that is all ASCII has the case of its letters
/// folded and nothing else.
pub assume_specification[ str::to_lowercase ](s: &str) -> (out: String)
    ensures
        out@ == lowercase(s@),
        vstd::utf8::is_ascii_chars(s@) ==> out@ == ascii_lowercase(s@),
;

/// What `char::is_alphanumeric` answers for a character.
pub uninterp spec fn alphanumeric(c: char) -> bool;

/// `char::is_alphanumeric`: whether Unicode counts a character as a letter or
/// a number. Of ASCII, that is the letters and the digits.
pub assume_specification[ char::is_alphanumeric ](c: char) -> (yes: bool)
    ensures
        yes == alphanumeric(c),
        '\0' <= c <= '\u{7f}' ==> yes == ('a' <= c <= 'z' || 'A' <= c <= 'Z' || '0' <= c <= '9'),
;

/// `String::push`: one character on the end, everything before it kept.
pub assume_specification[ String::push ](s: &mut String, c: char)
    ensures
        final(s)@ == old(s)@.push(c),
;

/// The characters of `text`, in order.
pub fn chars_of(text: &str) -> (out: Vec<char>)
    ensures
        out@ == text@,
{
    let mut out: Vec<char> = Vec::new();
    for c in iter: text.chars()
        invariant
            out@ == iter.seq().take(iter.index() as int),
            iter.seq() == text@,
    {
        out.push(c);
    }
    out
}

/// The text these characters spell.
pub fn text_of(chars: &[char]) -> (out: String)
    ensures
        out@ == chars@,
{
    let mut out: String = String::new();
    for i in 0..chars.len()
        invariant
            out@ == chars@.take(i as int),
    {
        out.push(chars[i]);
    }
    out
}

/// The text spelled by `chars[from..to]`.
pub fn slice_text(chars: &[char], from: usize, to: usize) -> (out: String)
    requires
        from <= to <= chars@.len(),
    ensures
        out@ == chars@.subrange(from as int, to as int),
{
    let mut out: String = String::new();
    for i in from..to
        invariant
            from <= i <= to <= chars@.len(),
            out@ == chars@.subrange(from as int, i as int),
    {
        out.push(chars[i]);
    }
    out
}

/// Whether two texts are the same characters in the same order.
pub fn same(a: &str, b: &str) -> (yes: bool)
    ensures
        yes == (a@ == b@),
{
    proof {
        vstd::utf8::encode_utf8_decode_utf8(a@);
        vstd::utf8::encode_utf8_decode_utf8(b@);
    }
    let left = a.as_bytes();
    let right = b.as_bytes();
    if left.len() != right.len() {
        return false;
    }
    for i in 0..left.len()
        invariant
            left@ == vstd::utf8::encode_utf8(a@),
            right@ == vstd::utf8::encode_utf8(b@),
            left@.len() == right@.len(),
            forall|j: int| 0 <= j < i ==> left@[j] == right@[j],
    {
        if left[i] != right[i] {
            return false;
        }
    }
    assert(left@ =~= right@);
    true
}

/// A text that may be missing, by its characters.
pub open spec fn maybe(text: Option<String>) -> Option<Seq<char>> {
    match text {
        Some(text) => Some(text@),
        None => None,
    }
}

/// [`maybe`], of a borrowed text.
pub open spec fn maybe_str(text: Option<&str>) -> Option<Seq<char>> {
    match text {
        Some(text) => Some(text@),
        None => None,
    }
}

/// Several texts, each by its characters.
pub open spec fn all_of(texts: Seq<String>) -> Seq<Seq<char>> {
    Seq::new(texts.len(), |i: int| texts[i]@)
}

/// A borrowed look at a text that may be missing.
pub fn borrowed(text: &Option<String>) -> (out: Option<&str>)
    ensures
        maybe_str(out) == maybe(*text),
{
    match text {
        Some(text) => Some(text.as_str()),
        None => None,
    }
}

/// An owned copy of a text that may be missing.
pub fn copied(text: &Option<String>) -> (out: Option<String>)
    ensures
        out == *text,
{
    match text {
        Some(text) => Some(text.clone()),
        None => None,
    }
}

/// Whether two texts that may be missing agree.
pub fn same_maybe(a: Option<&str>, b: Option<&str>) -> (yes: bool)
    ensures
        yes == (maybe_str(a) == maybe_str(b)),
{
    match (a, b) {
        (Some(a), Some(b)) => same(a, b),
        (None, None) => true,
        _ => false,
    }
}

/// `needle` sits in `s` with its first character at `at`.
pub open spec fn occurs_at(s: Seq<char>, needle: Seq<char>, at: int) -> bool {
    0 <= at && at + needle.len() <= s.len() && s.subrange(at, at + needle.len() as int) == needle
}

/// `needle` sits somewhere in `s`.
pub open spec fn contains(s: Seq<char>, needle: Seq<char>) -> bool {
    exists|at: int| occurs_at(s, needle, at)
}

/// Whether `needle` sits in `s` at `at`.
pub fn is_at(s: &[char], needle: &[char], at: usize) -> (yes: bool)
    ensures
        yes == occurs_at(s@, needle@, at as int),
{
    if s.len() < at || s.len() - at < needle.len() {
        return false;
    }
    let size: usize = s.len();
    for i in 0..needle.len()
        invariant
            at + needle@.len() <= s@.len() == size,
            forall|j: int| 0 <= j < i ==> s@[at + j] == needle@[j],
    {
        if s[at + i] != needle[i] {
            proof {
                let window = s@.subrange(at as int, at + needle@.len() as int);
                assert(window[i as int] != needle@[i as int]);
            }
            return false;
        }
    }
    assert(s@.subrange(at as int, at + needle@.len() as int) =~= needle@);
    true
}

/// Whether `needle` sits anywhere in `s`.
pub fn has(s: &[char], needle: &[char]) -> (yes: bool)
    ensures
        yes == contains(s@, needle@),
{
    let mut at: usize = 0;
    while at <= s.len()
        invariant
            at <= s@.len() + 1,
            forall|j: int| 0 <= j < at ==> !occurs_at(s@, needle@, j),
        decreases s@.len() + 1 - at,
    {
        if is_at(s, needle, at) {
            return true;
        }
        if at == s.len() {
            return false;
        }
        at += 1;
    }
    false
}

/// [`has`], of two texts.
pub fn text_has(s: &str, needle: &str) -> (yes: bool)
    ensures
        yes == contains(s@, needle@),
{
    let chars = chars_of(s);
    let wanted = chars_of(needle);
    has(&chars, &wanted)
}

/// Whether one character is among `s`.
pub fn has_char(s: &[char], c: char) -> (yes: bool)
    ensures
        yes == s@.contains(c),
{
    for i in 0..s.len()
        invariant
            forall|j: int| 0 <= j < i ==> s@[j] != c,
    {
        if s[i] == c {
            return true;
        }
    }
    false
}

/// Whether `s` opens with `prefix`.
pub fn opens_with(s: &[char], prefix: &[char]) -> (yes: bool)
    ensures
        yes == prefix@.is_prefix_of(s@),
{
    let yes = is_at(s, prefix, 0);
    proof {
        if prefix@.len() <= s@.len() {
            assert(s@.subrange(0, prefix@.len() as int) =~= s@.take(prefix@.len() as int));
        }
    }
    yes
}

/// Whether `s` ends with `suffix`.
pub fn ends_with(s: &[char], suffix: &[char]) -> (yes: bool)
    ensures
        yes == suffix@.is_suffix_of(s@),
{
    if suffix.len() > s.len() {
        return false;
    }
    let yes = is_at(s, suffix, s.len() - suffix.len());
    proof {
        assert(s@.subrange(s@.len() - suffix@.len(), s@.len() as int) =~= s@.skip(
            s@.len() - suffix@.len(),
        ));
    }
    yes
}

/// A character of Unicode's `White_Space` property.
pub open spec fn white(c: char) -> bool {
    let n = c as u32;
    ||| 0x9 <= n <= 0xd
    ||| n == 0x20
    ||| n == 0x85
    ||| n == 0xa0
    ||| n == 0x1680
    ||| 0x2000 <= n <= 0x200a
    ||| n == 0x2028
    ||| n == 0x2029
    ||| n == 0x202f
    ||| n == 0x205f
    ||| n == 0x3000
}

/// Whether a character is white space.
pub fn is_white(c: char) -> (yes: bool)
    ensures
        yes == white(c),
{
    let n: u32 = c as u32;
    (0x9 <= n && n <= 0xd) || n == 0x20 || n == 0x85 || n == 0xa0 || n == 0x1680 || (0x2000 <= n
        && n <= 0x200a) || n == 0x2028 || n == 0x2029 || n == 0x202f || n == 0x205f || n == 0x3000
}

/// `s` without the white space it opens with.
pub open spec fn trim_start(s: Seq<char>) -> Seq<char>
    decreases s.len(),
{
    if s.len() > 0 && white(s[0]) {
        trim_start(s.drop_first())
    } else {
        s
    }
}

/// `s` without the white space it ends with.
pub open spec fn trim_end(s: Seq<char>) -> Seq<char>
    decreases s.len(),
{
    if s.len() > 0 && white(s.last()) {
        trim_end(s.drop_last())
    } else {
        s
    }
}

/// `s` without the white space at either end.
pub open spec fn trim(s: Seq<char>) -> Seq<char> {
    trim_end(trim_start(s))
}

/// Where the text of `s` starts, past any opening white space.
fn text_start(s: &[char]) -> (from: usize)
    ensures
        from <= s@.len(),
        trim_start(s@) == s@.skip(from as int),
{
    let mut from: usize = 0;
    assert(s@.skip(0) =~= s@);
    while from < s.len() && is_white(s[from])
        invariant
            from <= s@.len(),
            trim_start(s@) == trim_start(s@.skip(from as int)),
        decreases s@.len() - from,
    {
        assert(s@.skip(from as int).drop_first() =~= s@.skip(from + 1));
        from += 1;
    }
    from
}

/// Where the text of `s[from..]` ends, before any closing white space.
fn text_end(s: &[char], from: usize) -> (to: usize)
    requires
        from <= s@.len(),
    ensures
        from <= to <= s@.len(),
        trim_end(s@.skip(from as int)) == s@.subrange(from as int, to as int),
{
    let mut to: usize = s.len();
    assert(s@.skip(from as int) =~= s@.subrange(from as int, to as int));
    while to > from && is_white(s[to - 1])
        invariant
            from <= to <= s@.len(),
            trim_end(s@.skip(from as int)) == trim_end(s@.subrange(from as int, to as int)),
        decreases to,
    {
        assert(s@.subrange(from as int, to as int).drop_last() =~= s@.subrange(
            from as int,
            to - 1,
        ));
        to -= 1;
    }
    to
}

/// The characters of `s` without the white space at either end.
pub fn trimmed(s: &[char]) -> (out: Vec<char>)
    ensures
        out@ == trim(s@),
{
    let from: usize = text_start(s);
    let to: usize = text_end(s, from);
    let mut out: Vec<char> = Vec::new();
    for i in from..to
        invariant
            from <= i <= to <= s@.len(),
            out@ == s@.subrange(from as int, i as int),
    {
        out.push(s[i]);
    }
    out
}

/// A text without the white space at either end.
pub fn trim_text(text: &str) -> (out: String)
    ensures
        out@ == trim(text@),
{
    let chars = chars_of(text);
    let kept = trimmed(&chars);
    text_of(&kept)
}

/// A text without the white space it ends with.
pub fn trim_text_end(s: &[char]) -> (out: Vec<char>)
    ensures
        out@ == trim_end(s@),
{
    let to: usize = text_end(s, 0);
    assert(s@.skip(0) =~= s@);
    let mut out: Vec<char> = Vec::new();
    for i in 0..to
        invariant
            to <= s@.len(),
            out@ == s@.subrange(0, i as int),
    {
        out.push(s[i]);
    }
    out
}

/// `s` cut at every `sep`, the pieces in order and the cuts dropped. Always at
/// least one piece.
pub open spec fn split(s: Seq<char>, sep: char) -> Seq<Seq<char>>
    decreases s.len(),
{
    if s.len() == 0 {
        seq![Seq::<char>::empty()]
    } else {
        let before = split(s.drop_last(), sep);
        if s.last() == sep {
            before.push(Seq::<char>::empty())
        } else {
            before.drop_last().push(before.last().push(s.last()))
        }
    }
}

/// Cutting leaves at least one piece.
pub proof fn split_is_never_empty(s: Seq<char>, sep: char)
    ensures
        split(s, sep).len() >= 1,
    decreases s.len(),
{
    if s.len() > 0 {
        split_is_never_empty(s.drop_last(), sep);
    }
}

/// What holds no separator is one piece.
pub proof fn what_is_not_cut_is_whole(s: Seq<char>, sep: char)
    requires
        !s.contains(sep),
    ensures
        split(s, sep) == seq![s],
    decreases s.len(),
{
    if s.len() > 0 {
        let front = s.drop_last();
        assert(!front.contains(sep)) by {
            if front.contains(sep) {
                let i = choose|i: int| 0 <= i < front.len() && front[i] == sep;
                assert(s[i] == sep);
            }
        }
        assert(s[s.len() - 1] != sep);
        what_is_not_cut_is_whole(front, sep);
        assert(front.push(s.last()) =~= s);
        assert(split(s, sep) =~= seq![s]);
    } else {
        assert(s =~= Seq::<char>::empty());
    }
}

/// Cutting two texts with a separator between them gives the pieces of both.
pub proof fn pieces_of_both(a: Seq<char>, b: Seq<char>, sep: char)
    ensures
        split(a.push(sep) + b, sep) == split(a, sep) + split(b, sep),
    decreases b.len(),
{
    let all = a.push(sep) + b;
    if b.len() == 0 {
        assert(all.drop_last() =~= a);
        assert(split(all, sep) =~= split(a, sep) + split(b, sep));
    } else {
        assert(all.drop_last() =~= a.push(sep) + b.drop_last());
        pieces_of_both(a, b.drop_last(), sep);
        split_is_never_empty(b.drop_last(), sep);
        let before = split(b.drop_last(), sep);
        assert((split(a, sep) + before).drop_last() =~= split(a, sep) + before.drop_last());
        assert(split(all, sep) =~= split(a, sep) + split(b, sep));
    }
}

/// `s` cut at every `sep`.
pub fn pieces(s: &[char], sep: char) -> (out: Vec<String>)
    ensures
        all_of(out@) == split(s@, sep),
        out@.len() >= 1,
{
    let mut done: Vec<String> = Vec::new();
    let mut piece: String = String::new();
    proof {
        assert(s@.take(0) =~= Seq::<char>::empty());
        assert(all_of(done@).push(piece@) =~= split(s@.take(0), sep));
    }
    for i in 0..s.len()
        invariant
            all_of(done@).push(piece@) == split(s@.take(i as int), sep),
    {
        let ghost upto = s@.take(i + 1);
        proof {
            assert(upto.drop_last() =~= s@.take(i as int));
            split_is_never_empty(upto.drop_last(), sep);
        }
        let ghost before = all_of(done@);
        let ghost last = piece@;
        if s[i] == sep {
            done.push(piece);
            piece = String::new();
            proof {
                assert(all_of(done@) =~= before.push(last));
            }
        } else {
            piece.push(s[i]);
            proof {
                assert(before.push(last).drop_last() =~= before);
            }
        }
    }
    proof {
        assert(s@.take(s@.len() as int) =~= s@);
    }
    let ghost before = all_of(done@);
    let ghost last = piece@;
    done.push(piece);
    proof {
        assert(all_of(done@) =~= before.push(last));
    }
    done
}

/// `parts` in order with `sep` between each two.
pub open spec fn join(parts: Seq<Seq<char>>, sep: Seq<char>) -> Seq<char>
    decreases parts.len(),
{
    if parts.len() == 0 {
        Seq::<char>::empty()
    } else if parts.len() == 1 {
        parts[0]
    } else {
        join(parts.drop_last(), sep) + sep + parts.last()
    }
}

/// What a part of a text holds, the text holds.
pub proof fn holding_carries(outer: Seq<char>, middle: Seq<char>, inner: Seq<char>)
    requires
        contains(outer, middle),
        contains(middle, inner),
    ensures
        contains(outer, inner),
{
    let a = choose|at: int| occurs_at(outer, middle, at);
    let b = choose|at: int| occurs_at(middle, inner, at);
    assert(outer.subrange(a + b, a + b + inner.len()) =~= outer.subrange(
        a,
        a + middle.len(),
    ).subrange(b, b + inner.len()));
    assert(occurs_at(outer, inner, a + b));
}

/// Joined parts hold each of them.
pub proof fn a_part_is_held(parts: Seq<Seq<char>>, sep: Seq<char>, i: int)
    requires
        0 <= i < parts.len(),
    ensures
        contains(join(parts, sep), parts[i]),
    decreases parts.len(),
{
    let whole = join(parts, sep);
    if parts.len() == 1 {
        assert(whole.subrange(0, whole.len() as int) =~= whole);
        assert(occurs_at(whole, parts[0], 0));
    } else {
        let front = join(parts.drop_last(), sep);
        if i == parts.len() - 1 {
            let at = (front + sep).len() as int;
            assert(whole.subrange(at, at + parts[i].len()) =~= parts[i]);
            assert(occurs_at(whole, parts[i], at));
        } else {
            a_part_is_held(parts.drop_last(), sep, i);
            assert(whole.subrange(0, front.len() as int) =~= front);
            assert(occurs_at(whole, front, 0));
            holding_carries(whole, front, parts[i]);
        }
    }
}

/// The texts of `parts` in order with `sep` between each two.
pub fn joined(parts: &[String], sep: &str) -> (out: String)
    ensures
        out@ == join(all_of(parts@), sep@),
{
    let mut out: String = String::new();
    for i in 0..parts.len()
        invariant
            out@ == join(all_of(parts@.take(i as int)), sep@),
    {
        proof {
            let upto = all_of(parts@.take(i + 1));
            assert(upto.drop_last() =~= all_of(parts@.take(i as int)));
            assert(upto.last() == parts@[i as int]@);
            assert(Seq::<char>::empty() + parts@[i as int]@ =~= parts@[i as int]@);
        }
        if i > 0 {
            out.append(sep);
        }
        out.append(parts[i].as_str());
    }
    proof {
        assert(parts@.take(parts@.len() as int) =~= parts@);
    }
    out
}

/// What stands behind `prefix` in `s`, if `s` opens with it.
pub open spec fn stripped(s: Seq<char>, prefix: Seq<char>) -> Option<Seq<char>> {
    if prefix.is_prefix_of(s) {
        Some(s.skip(prefix.len() as int))
    } else {
        None
    }
}

/// What stands behind `prefix` in `s`, if `s` opens with it.
pub fn strip_front(s: &[char], prefix: &str) -> (out: Option<Vec<char>>)
    ensures
        out is Some <==> stripped(s@, prefix@) is Some,
        out is Some ==> out->0@ == stripped(s@, prefix@)->0,
{
    let front = chars_of(prefix);
    if !opens_with(s, &front) {
        return None;
    }
    let mut out: Vec<char> = Vec::new();
    for i in front.len()..s.len()
        invariant
            front@ == prefix@,
            front@.len() <= i <= s@.len(),
            out@ == s@.subrange(front@.len() as int, i as int),
    {
        out.push(s[i]);
    }
    assert(out@ =~= s@.skip(prefix@.len() as int));
    Some(out)
}

/// The characters of `s` without the white space it opens with.
pub fn trim_front(s: &[char]) -> (out: Vec<char>)
    ensures
        out@ == trim_start(s@),
{
    let from: usize = text_start(s);
    let mut out: Vec<char> = Vec::new();
    for i in from..s.len()
        invariant
            from <= i <= s@.len(),
            out@ == s@.subrange(from as int, i as int),
    {
        out.push(s[i]);
    }
    assert(out@ =~= s@.skip(from as int));
    out
}

/// A line that a newline ended, without the return that may stand before it.
pub open spec fn ended(line: Seq<char>) -> Seq<char> {
    if line.len() > 0 && line.last() == '\r' {
        line.drop_last()
    } else {
        line
    }
}

/// The lines of `s`. A newline ends a line rather than parting two, so one at the
/// very end opens no further line.
pub open spec fn lines(s: Seq<char>) -> Seq<Seq<char>> {
    let parts = split(s, '\n');
    let done = Seq::new((parts.len() - 1) as nat, |i: int| ended(parts[i]));
    if parts.last().len() == 0 {
        done
    } else {
        done.push(parts.last())
    }
}

/// The lines of a text.
pub fn lines_of(text: &str) -> (out: Vec<String>)
    ensures
        all_of(out@) == lines(text@),
{
    let parts = pieces(&chars_of(text), '\n');
    let ghost all = split(text@, '\n');
    let last: usize = parts.len() - 1;
    let mut out: Vec<String> = Vec::new();
    for i in 0..last
        invariant
            last == parts@.len() - 1,
            all_of(parts@) == all,
            out@.len() == i,
            forall|j: int| 0 <= j < i ==> (#[trigger] out@[j])@ == ended(all[j]),
    {
        let line = chars_of(parts[i].as_str());
        assert(line@ == all[i as int]);
        let end: usize = if line.len() > 0 && line[line.len() - 1] == '\r' {
            line.len() - 1
        } else {
            line.len()
        };
        let kept = slice_text(&line, 0, end);
        assert(kept@ =~= ended(all[i as int]));
        out.push(kept);
    }
    assert(parts@[last as int]@ == all_of(parts@)[last as int]);
    if !parts[last].as_str().is_empty() {
        let ghost before = all_of(out@);
        out.push(parts[last].clone());
        assert(all_of(out@) =~= before.push(all.last()));
    }
    assert(all_of(out@) =~= lines(text@));
    out
}

/// The words of `s`: its longest runs without white space, in order.
pub open spec fn words(s: Seq<char>) -> Seq<Seq<char>>
    decreases s.len(),
{
    if s.len() == 0 {
        Seq::empty()
    } else if white(s.last()) {
        words(s.drop_last())
    } else if s.len() == 1 || white(s[s.len() - 2]) {
        words(s.drop_last()).push(seq![s.last()])
    } else {
        let before = words(s.drop_last());
        before.drop_last().push(before.last().push(s.last()))
    }
}

/// The words of `s`, in order.
pub fn words_of(s: &[char]) -> (out: Vec<String>)
    ensures
        all_of(out@) == words(s@),
{
    let mut done: Vec<String> = Vec::new();
    let mut word: String = String::new();
    let mut open: bool = false;
    proof {
        assert(s@.take(0) =~= Seq::<char>::empty());
        assert(all_of(done@) =~= words(s@.take(0)));
    }
    for i in 0..s.len()
        invariant
            open == (i > 0 && !white(s@[i - 1])),
            open ==> all_of(done@).push(word@) == words(s@.take(i as int)),
            !open ==> all_of(done@) == words(s@.take(i as int)) && word@ == Seq::<char>::empty(),
    {
        let ghost upto = s@.take(i + 1);
        let ghost before = all_of(done@);
        let ghost last = word@;
        proof {
            assert(upto.drop_last() =~= s@.take(i as int));
            assert(upto.last() == s@[i as int]);
            if i > 0 {
                assert(upto[upto.len() - 2] == s@[i - 1]);
            }
        }
        if is_white(s[i]) {
            if open {
                done.push(word);
                word = String::new();
                proof {
                    assert(all_of(done@) =~= before.push(last));
                }
            }
            open = false;
        } else {
            word.push(s[i]);
            proof {
                if open {
                    assert(before.push(last).drop_last() =~= before);
                } else {
                    assert(word@ =~= seq![s@[i as int]]);
                }
            }
            open = true;
        }
    }
    proof {
        assert(s@.take(s@.len() as int) =~= s@);
    }
    if open {
        let ghost before = all_of(done@);
        let ghost last = word@;
        done.push(word);
        proof {
            assert(all_of(done@) =~= before.push(last));
        }
    }
    done
}

/// The digit `0` to `9` for a number under ten.
pub open spec fn digit(n: int) -> char {
    (48 + n) as char
}

/// A number's decimal digits, with no sign and no leading zero.
pub open spec fn digits(n: nat) -> Seq<char>
    decreases n,
{
    if n < 10 {
        seq![digit(n as int)]
    } else {
        digits(n / 10).push(digit((n % 10) as int))
    }
}

/// An integer in decimal.
pub open spec fn decimal(n: int) -> Seq<char> {
    if n < 0 {
        seq!['-'] + digits((-n) as nat)
    } else {
        digits(n as nat)
    }
}

/// The decimal digits of `n`.
pub fn digits_of(n: u64) -> (out: String)
    ensures
        out@ == digits(n as nat),
    decreases n,
{
    let mut out: String = if n < 10 {
        String::new()
    } else {
        digits_of(n / 10)
    };
    let low: u8 = (n % 10) as u8;
    out.push((48u8 + low) as char);
    proof {
        if n < 10 {
            assert(out@ =~= seq![digit(n as int)]);
        }
    }
    out
}

/// `n` in decimal.
pub fn decimal_of(n: i64) -> (out: String)
    ensures
        out@ == decimal(n as int),
{
    if n < 0 {
        let mut out: String = String::new();
        out.push('-');
        let size: u64 = (-(n as i128)) as u64;
        let rest = digits_of(size);
        out.append(rest.as_str());
        proof {
            assert(out@ =~= seq!['-'] + digits((-n) as nat));
        }
        out
    } else {
        digits_of(n as u64)
    }
}

/// A count in decimal.
pub fn count_of(n: usize) -> (out: String)
    ensures
        out@ == decimal(n as int),
{
    digits_of(n as u64)
}

/// One of the ten ASCII digits.
pub open spec fn ascii_digit(c: char) -> bool {
    '0' <= c <= '9'
}

/// At least one character, every one a digit.
pub open spec fn all_digits(s: Seq<char>) -> bool {
    s.len() > 0 && forall|i: int| 0 <= i < s.len() ==> ascii_digit(#[trigger] s[i])
}

/// The number these digits spell.
pub open spec fn number(s: Seq<char>) -> nat
    decreases s.len(),
{
    if s.len() == 0 {
        0
    } else {
        number(s.drop_last()) * 10 + (s.last() as nat - 48) as nat
    }
}

/// The number digits spell, where it fits in an `i64`.
pub fn read_number(s: &[char]) -> (out: Option<i64>)
    requires
        all_digits(s@),
    ensures
        number(s@) <= i64::MAX ==> out is Some && out->0 == number(s@),
        number(s@) > i64::MAX ==> out is None,
{
    let mut so_far: i64 = 0;
    for i in 0..s.len()
        invariant
            all_digits(s@),
            so_far >= 0,
            so_far == number(s@.take(i as int)),
    {
        proof {
            assert(s@.take(i + 1).drop_last() =~= s@.take(i as int));
            assert(s@.take(i + 1).last() == s@[i as int]);
            assert(ascii_digit(s@[i as int]));
        }
        let value: i64 = (s[i] as u32 - 48) as i64;
        let more = match so_far.checked_mul(10) {
            Some(tens) => tens.checked_add(value),
            None => None,
        };
        match more {
            Some(next) => {
                so_far = next;
            },
            None => {
                proof {
                    numbers_grow(s@, i + 1);
                }
                return None;
            },
        }
    }
    assert(s@.take(s@.len() as int) =~= s@);
    Some(so_far)
}

/// More digits make no smaller a number.
proof fn numbers_grow(s: Seq<char>, n: int)
    requires
        0 <= n <= s.len(),
        forall|i: int| 0 <= i < s.len() ==> ascii_digit(#[trigger] s[i]),
    ensures
        number(s.take(n)) <= number(s),
    decreases s.len(),
{
    if n < s.len() {
        assert(s.drop_last().take(n) =~= s.take(n));
        assert forall|i: int| 0 <= i < s.drop_last().len() implies ascii_digit(
            #[trigger] s.drop_last()[i],
        ) by {
            assert(s[i] == s.drop_last()[i]);
        }
        numbers_grow(s.drop_last(), n);
        assert(ascii_digit(s[s.len() - 1]));
    } else {
        assert(s.take(n) =~= s);
    }
}

/// Whether a text is digits and nothing but.
pub fn is_digits(s: &[char]) -> (yes: bool)
    ensures
        yes == all_digits(s@),
{
    if s.len() == 0 {
        return false;
    }
    for i in 0..s.len()
        invariant
            forall|j: int| 0 <= j < i ==> ascii_digit(#[trigger] s@[j]),
    {
        if !('0' <= s[i] && s[i] <= '9') {
            assert(!ascii_digit(s@[i as int]));
            return false;
        }
    }
    true
}

/// A number that is written out reads back as itself.
pub proof fn a_number_reads_back(n: nat)
    ensures
        all_digits(digits(n)),
        number(digits(n)) == n,
    decreases n,
{
    if n >= 10 {
        a_number_reads_back(n / 10);
        let front = digits(n / 10);
        let all = digits(n);
        assert(all.drop_last() =~= front);
        assert forall|i: int| 0 <= i < all.len() implies ascii_digit(#[trigger] all[i]) by {
            if i < front.len() {
                assert(ascii_digit(front[i]));
            }
        }
    } else {
        assert(digits(n).drop_last() =~= Seq::<char>::empty());
        assert(number(digits(n).drop_last()) == 0);
    }
}

/// What stands between two texts is in the whole.
pub proof fn a_piece_is_held(before: Seq<char>, piece: Seq<char>, after: Seq<char>)
    ensures
        contains(before + piece + after, piece),
{
    let whole = before + piece + after;
    let at = before.len() as int;
    assert(whole.subrange(at, at + piece.len()) =~= piece);
    assert(occurs_at(whole, piece, at));
}

/// What is cut into pieces is whole again once they are joined by what they were cut at.
pub proof fn what_is_split_joins_again(s: Seq<char>, sep: char)
    ensures
        join(split(s, sep), seq![sep]) == s,
    decreases s.len(),
{
    if s.len() == 0 {
        assert(join(split(s, sep), seq![sep]) =~= s);
    } else {
        let front = s.drop_last();
        let before = split(front, sep);
        let pieces = split(s, sep);
        what_is_split_joins_again(front, sep);
        split_is_never_empty(front, sep);
        if s.last() == sep {
            assert(pieces.drop_last() =~= before);
            assert(join(pieces, seq![sep]) =~= front + seq![sep] + Seq::<char>::empty());
            assert(join(pieces, seq![sep]) =~= s);
        } else {
            assert(pieces.drop_last() =~= before.drop_last());
            assert(join(pieces, seq![sep]) =~= join(before, seq![sep]).push(s.last()));
            assert(s =~= front.push(s.last()));
        }
    }
}

} // verus!
