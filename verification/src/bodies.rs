//! Searching the raw columns a message's body lives in, before it is decoded.
use vstd::prelude::*;
use vstd::slice::slice_subrange;

use crate::apple;
use crate::matching::run_contains;
use crate::text;

verus! {

/// A byte with the case of an ASCII letter folded away.
pub open spec fn ascii_lower(b: u8) -> u8 {
    if 65 <= b <= 90 {
        (b + 32) as u8
    } else {
        b
    }
}

/// `needle` sits in `data` at `at`, ASCII case aside.
pub open spec fn folds_at(data: Seq<u8>, needle: Seq<u8>, at: int) -> bool {
    0 <= at && at + needle.len() <= data.len() && forall|i: int|
        0 <= i < needle.len() ==> ascii_lower(data[at + i]) == ascii_lower(#[trigger] needle[i])
}

/// A byte with the case of an ASCII letter folded away.
fn lowered(b: u8) -> (out: u8)
    ensures
        out == ascii_lower(b),
{
    if 65 <= b && b <= 90 {
        b + 32
    } else {
        b
    }
}

/// Does `needle` occur in `haystack`, ASCII case aside?
pub fn contains_ignoring_ascii_case(haystack: &[u8], needle: &[u8]) -> (yes: bool)
    ensures
        yes == exists|at: int| folds_at(haystack@, needle@, at),
{
    let size: usize = haystack.len();
    if needle.len() > size {
        return false;
    }
    let last: usize = size - needle.len();
    let mut at: usize = 0;
    while at <= last
        invariant
            size == haystack@.len(),
            last == size - needle@.len(),
            at <= last + 1,
            forall|j: int| 0 <= j < at ==> !folds_at(haystack@, needle@, j),
        decreases last + 1 - at,
    {
        let mut i: usize = 0;
        while i < needle.len() && lowered(haystack[at + i]) == lowered(needle[i])
            invariant
                size == haystack@.len(),
                at + needle@.len() <= size,
                i <= needle@.len(),
                forall|j: int|
                    0 <= j < i ==> ascii_lower(haystack@[at + j]) == ascii_lower(
                        #[trigger] needle@[j],
                    ),
            decreases needle@.len() - i,
        {
            i += 1;
        }
        if i == needle.len() {
            assert(folds_at(haystack@, needle@, at as int));
            return true;
        }
        assert(!folds_at(haystack@, needle@, at as int)) by {
            assert(ascii_lower(haystack@[at + i]) != ascii_lower(needle@[i as int]));
        }
        if at == last {
            return false;
        }
        at += 1;
    }
    false
}

/// The longest prefix of `bytes` that is UTF-8 has length `n`.
pub open spec fn run_end(bytes: Seq<u8>, n: int) -> bool {
    &&& 0 <= n <= bytes.len()
    &&& vstd::utf8::valid_utf8(bytes.take(n))
    &&& forall|m: int| n < m <= bytes.len() ==> !vstd::utf8::valid_utf8(#[trigger] bytes.take(m))
}

/// `std::str::from_utf8`: the text bytes encode, or how many of them are UTF-8
/// before one that is not, which is what `Utf8Error::valid_up_to` says.
#[verifier::external_body]
fn read_utf8(bytes: &[u8]) -> (out: Result<String, usize>)
    ensures
        out is Ok <==> vstd::utf8::valid_utf8(bytes@),
        out is Ok ==> out->Ok_0@ == vstd::utf8::decode_utf8(bytes@),
        out is Err ==> run_end(bytes@, out->Err_0 as int),
{
    match std::str::from_utf8(bytes) {
        Ok(run) => Ok(run.to_owned()),
        Err(error) => Err(error.valid_up_to()),
    }
}

/// `needle` is in `run`, case aside.
pub open spec fn in_run(run: Seq<char>, needle: Seq<char>) -> bool {
    text::contains(text::lowercase(run), text::lowercase(needle))
}

/// Where to go on behind the first run and the byte that ends it. What else of a
/// broken character is there begins no run.
pub open spec fn next_run(bytes: Seq<u8>) -> int {
    let n = choose|n: int| run_end(bytes, n);
    if 0 <= n < bytes.len() {
        n + 1
    } else {
        bytes.len() as int
    }
}

/// `needle` is in one of the runs of UTF-8 that `bytes` is made of, case aside.
/// Text never spans what is not UTF-8.
pub open spec fn in_some_run(bytes: Seq<u8>, needle: Seq<char>) -> bool
    decreases bytes.len(),
{
    if vstd::utf8::valid_utf8(bytes) {
        in_run(vstd::utf8::decode_utf8(bytes), needle)
    } else if bytes.len() == 0 {
        false
    } else {
        let n = choose|n: int| run_end(bytes, n);
        in_run(vstd::utf8::decode_utf8(bytes.take(n)), needle) || in_some_run(
            bytes.skip(next_run(bytes)),
            needle,
        )
    }
}

/// `run` is one of the runs of UTF-8 that `bytes` is made of.
pub open spec fn run_of(bytes: Seq<u8>, run: Seq<char>) -> bool
    decreases bytes.len(),
{
    if vstd::utf8::valid_utf8(bytes) {
        run == vstd::utf8::decode_utf8(bytes)
    } else if bytes.len() == 0 {
        false
    } else {
        let n = choose|n: int| run_end(bytes, n);
        run == vstd::utf8::decode_utf8(bytes.take(n)) || run_of(bytes.skip(next_run(bytes)), run)
    }
}

/// Wherever `body` is in a run of `bytes`, it is folded there as it is on its own. A
/// body whose last letter is a sigma is not, where the run goes on with a letter.
pub open spec fn folds_in_its_run(bytes: Seq<u8>, body: Seq<char>) -> bool {
    forall|before: Seq<char>, after: Seq<char>|
        #[trigger] run_of(bytes, before + body + after) ==> text::contains(
            text::lowercase(before + body + after),
            text::lowercase(body),
        )
}

/// `needle` is in a column, case aside: byte for byte where it is ASCII, and in
/// one run of text where it is not.
pub open spec fn in_column(haystack: Seq<u8>, needle: Seq<char>) -> bool {
    if vstd::utf8::is_ascii_chars(needle) {
        exists|at: int| folds_at(haystack, vstd::utf8::encode_utf8(needle), at)
    } else {
        in_some_run(haystack, needle)
    }
}

/// Does `needle` occur in `haystack`, ignoring case?
///
/// Bytes rather than a string because the haystack is usually a typedstream
/// blob: UTF-8 text with binary framing wrapped around it. Case folds per
/// character rather than per byte once the needle leaves ASCII, since `É` and
/// `é` differ in both of their bytes.
pub fn contains_ignoring_case(haystack: &[u8], needle: &str) -> (yes: bool)
    ensures
        yes == in_column(haystack@, needle@),
{
    if needle.is_ascii() {
        return contains_ignoring_ascii_case(haystack, needle.as_bytes());
    }
    let mut from: usize = 0;
    assert(haystack@.skip(0) =~= haystack@);
    loop
        invariant
            from <= haystack@.len(),
            !vstd::utf8::is_ascii_chars(needle@),
            in_some_run(haystack@, needle@) == in_some_run(haystack@.skip(from as int), needle@),
        decreases haystack@.len() - from,
    {
        let rest = slice_subrange(haystack, from, haystack.len());
        assert(rest@ =~= haystack@.skip(from as int));
        match read_utf8(rest) {
            Ok(run) => {
                return run_contains(run.as_str(), needle);
            },
            Err(valid) => {
                let front = slice_subrange(rest, 0, valid);
                assert(front@ =~= rest@.take(valid as int));
                proof {
                    let n = choose|n: int| run_end(rest@, n);
                    assert(run_end(rest@, valid as int));
                    assert(n == valid) by {
                        if n < valid {
                            assert(!vstd::utf8::valid_utf8(rest@.take(valid as int)));
                        }
                        if valid < n {
                            assert(!vstd::utf8::valid_utf8(rest@.take(n)));
                        }
                    }
                    if rest@.len() == 0 {
                        assert(vstd::utf8::valid_utf8(rest@));
                    }
                }
                if let Ok(run) = read_utf8(front) {
                    if run_contains(run.as_str(), needle) {
                        return true;
                    }
                }
                assert(valid < rest@.len()) by {
                    assert(rest@.take(rest@.len() as int) =~= rest@);
                }
                let next: usize = valid + 1;
                assert(next == next_run(rest@));
                assert(rest@.skip(next as int) =~= haystack@.skip(from + next));
                from += next;
            },
        }
    }
}

/// The needle is in a message's body as the database stores it: in its text
/// column, or in the archive beside it. The empty needle is in every body.
pub open spec fn in_body(text: Option<Seq<char>>, archive: Option<Seq<u8>>, needle: Seq<char>) -> bool {
    ||| needle.len() == 0
    ||| text is Some && in_column(vstd::utf8::encode_utf8(text->0), needle)
    ||| archive is Some && in_column(archive->0, needle)
}

/// `msg_body_has(text, attributedBody, needle)` — is the needle in this
/// message's body?
///
/// A prefilter: it over-matches when the needle also appears in an archived
/// class name, or does not start a word. Decoding and checking afterwards is
/// what narrows both.
pub fn body_has(text: Option<&str>, archive: Option<&[u8]>, needle: &str) -> (yes: bool)
    ensures
        yes == in_body(
            text::maybe_str(text),
            (match archive {
                Some(bytes) => Some(bytes@),
                None => None,
            }),
            needle@,
        ),
{
    if needle.is_empty() {
        return true;
    }
    if let Some(text) = text {
        if contains_ignoring_case(text.as_bytes(), needle) {
            return true;
        }
    }
    match archive {
        Some(bytes) => contains_ignoring_case(bytes, needle),
        None => false,
    }
}

/// Lowercasing a text leaves each character in its place, and makes an ASCII
/// character out of nothing but an ASCII character. Most texts fold so; one with
/// the Kelvin sign in it, whose lowercase is `k`, does not.
pub open spec fn folds_in_place(body: Seq<char>) -> bool {
    &&& text::lowercase(body).len() == body.len()
    &&& forall|i: int|
        0 <= i < body.len() && '\0' <= (#[trigger] text::lowercase(body)[i]) <= '\u{7f}'
            ==> text::lowercase(body)[i] == text::ascii_lower(body[i])
}

proof fn encoding_is_piecewise(a: Seq<char>, b: Seq<char>)
    ensures
        vstd::utf8::encode_utf8(a + b) == vstd::utf8::encode_utf8(a) + vstd::utf8::encode_utf8(b),
    decreases a.len(),
{
    if a.len() == 0 {
        assert(a + b =~= b);
        assert(vstd::utf8::encode_utf8(a) =~= Seq::<u8>::empty());
    } else {
        assert((a + b).drop_first() =~= a.drop_first() + b);
        encoding_is_piecewise(a.drop_first(), b);
        assert(vstd::utf8::encode_utf8(a + b) =~= vstd::utf8::encode_utf8(a)
            + vstd::utf8::encode_utf8(b));
    }
}

/// An ASCII needle in a text, case aside, is in the bytes of that text.
proof fn a_plain_needle_is_in_the_bytes(body: Seq<char>, needle: Seq<char>) -> (at: int)
    requires
        vstd::utf8::is_ascii_chars(needle),
        text::lowercase(needle) == text::ascii_lowercase(needle),
        folds_in_place(body),
        text::contains(text::lowercase(body), text::lowercase(needle)),
    ensures
        folds_at(vstd::utf8::encode_utf8(body), vstd::utf8::encode_utf8(needle), at),
{
    let low = text::lowercase(body);
    let wanted = text::ascii_lowercase(needle);
    let start = choose|start: int| text::occurs_at(low, wanted, start);
    let n = needle.len() as int;
    let before = body.take(start);
    let middle = body.subrange(start, start + n);
    let after = body.skip(start + n);
    assert(body =~= before + middle + after);
    encoding_is_piecewise(before + middle, after);
    encoding_is_piecewise(before, middle);
    let at = vstd::utf8::encode_utf8(before).len() as int;
    assert forall|i: int| 0 <= i < n implies '\0' <= #[trigger] middle[i] <= '\u{7f}'
        && text::ascii_lower(middle[i]) == text::ascii_lower(needle[i]) by {
        assert(low.subrange(start, start + n)[i] == wanted[i]);
        assert(low[start + i] == text::ascii_lower(needle[i]));
        assert('\0' <= needle[i] <= '\u{7f}');
        assert(middle[i] == body[start + i]);
    }
    assert(vstd::utf8::is_ascii_chars(middle));
    vstd::utf8::is_ascii_chars_encode_utf8(middle);
    vstd::utf8::is_ascii_chars_encode_utf8(needle);
    let bytes = vstd::utf8::encode_utf8(body);
    let sought = vstd::utf8::encode_utf8(needle);
    assert forall|i: int| 0 <= i < sought.len() implies ascii_lower(bytes[at + i]) == ascii_lower(
        #[trigger] sought[i],
    ) by {
        assert(bytes[at + i] == vstd::utf8::encode_utf8(middle)[i]);
        assert(middle[i] as u8 == vstd::utf8::encode_utf8(middle)[i]);
        assert(needle[i] as u8 == sought[i]);
        assert(text::ascii_lower(middle[i]) == text::ascii_lower(needle[i]));
    }
    at
}

/// What is in a part of a text is in the text.
proof fn holding_is_passed_on(outer: Seq<char>, middle: Seq<char>, inner: Seq<char>)
    requires
        text::contains(outer, middle),
        text::contains(middle, inner),
    ensures
        text::contains(outer, inner),
{
    text::holding_carries(outer, middle, inner);
}

/// A needle in a run of a column is found by going through the runs.
proof fn a_run_is_gone_through(bytes: Seq<u8>, run: Seq<char>, needle: Seq<char>)
    requires
        run_of(bytes, run),
        in_run(run, needle),
    ensures
        in_some_run(bytes, needle),
    decreases bytes.len(),
{
    if !vstd::utf8::valid_utf8(bytes) && bytes.len() > 0 {
        let n = choose|n: int| run_end(bytes, n);
        if run != vstd::utf8::decode_utf8(bytes.take(n)) {
            a_run_is_gone_through(bytes.skip(next_run(bytes)), run, needle);
        }
    }
}

proof fn a_run_ends(bytes: Seq<u8>, k: int) -> (n: int)
    requires
        0 <= k <= bytes.len(),
        forall|m: int| k < m <= bytes.len() ==> !vstd::utf8::valid_utf8(#[trigger] bytes.take(m)),
    ensures
        run_end(bytes, n),
    decreases k,
{
    if vstd::utf8::valid_utf8(bytes.take(k)) {
        k
    } else {
        if k == 0 {
            assert(vstd::utf8::valid_utf8(bytes.take(0)));
        }
        a_run_ends(bytes, k - 1)
    }
}

proof fn decoding_is_piecewise(a: Seq<u8>, b: Seq<u8>)
    requires
        vstd::utf8::valid_utf8(a),
        vstd::utf8::valid_utf8(b),
    ensures
        vstd::utf8::decode_utf8(a + b) == vstd::utf8::decode_utf8(a) + vstd::utf8::decode_utf8(b),
{
    let x = vstd::utf8::decode_utf8(a);
    let y = vstd::utf8::decode_utf8(b);
    vstd::utf8::decode_utf8_encode_utf8(a);
    vstd::utf8::decode_utf8_encode_utf8(b);
    encoding_is_piecewise(x, y);
    vstd::utf8::encode_utf8_decode_utf8(x + y);
}

/// UTF-8 inside UTF-8, as long as it starts there.
proof fn a_text_in_a_text(run: Seq<u8>, from: int, to: int)
    requires
        vstd::utf8::valid_utf8(run),
        0 <= from < to <= run.len(),
        vstd::utf8::valid_utf8(run.subrange(from, to)),
        vstd::utf8::is_char_boundary(run, from),
    ensures
        exists|before: Seq<char>, after: Seq<char>|
            vstd::utf8::decode_utf8(run) == #[trigger] (before + vstd::utf8::decode_utf8(
                run.subrange(from, to),
            ) + after),
{
    let part = run.subrange(from, to);
    let front = run.subrange(0, from);
    let rest = run.subrange(from, run.len() as int);
    let back = rest.subrange(to - from, rest.len() as int);
    vstd::utf8::valid_utf8_split(run, from);
    assert(rest.subrange(0, to - from) =~= part);
    assert(vstd::utf8::valid_utf8(back)) by {
        if !vstd::utf8::valid_utf8(back) {
            vstd::utf8::partial_valid_partial_invalid_utf8(rest, to - from);
        }
    }
    assert(rest =~= part + back);
    assert(run =~= front + rest);
    decoding_is_piecewise(part, back);
    decoding_is_piecewise(front, rest);
    let before = vstd::utf8::decode_utf8(front);
    let after = vstd::utf8::decode_utf8(back);
    assert(vstd::utf8::decode_utf8(run) =~= before + vstd::utf8::decode_utf8(part) + after);
}

/// A text in a column is not torn apart by going through the runs: what is before
/// it ends no later than where it starts, and what is behind it starts no earlier
/// than where it ends.
proof fn a_text_lies_in_one_run(data: Seq<u8>, from: int, to: int)
    requires
        0 <= from < to <= data.len(),
        vstd::utf8::valid_utf8(data.subrange(from, to)),
    ensures
        exists|before: Seq<char>, after: Seq<char>|
            #[trigger] run_of(
                data,
                before + vstd::utf8::decode_utf8(data.subrange(from, to)) + after,
            ),
    decreases data.len(),
{
    let part = data.subrange(from, to);
    let body = vstd::utf8::decode_utf8(part);
    vstd::utf8::is_char_boundary_start_end_of_seq(part);
    vstd::utf8::is_char_boundary_iff_not_is_continuation_byte(part, 0);
    assert(part[0] == data[from]);
    if vstd::utf8::valid_utf8(data) {
        vstd::utf8::is_char_boundary_iff_not_is_continuation_byte(data, from);
        a_text_in_a_text(data, from, to);
        let (before, after) = choose|before: Seq<char>, after: Seq<char>|
            vstd::utf8::decode_utf8(data) == #[trigger] (before + body + after);
        assert(run_of(data, before + body + after));
    } else {
        let longest = a_run_ends(data, data.len() as int);
        assert(run_end(data, longest));
        let n = choose|n: int| run_end(data, n);
        let run = data.take(n);
        assert(data.take(data.len() as int) =~= data);
        if from <= n {
            assert(vstd::utf8::valid_utf8(run.subrange(0, from))) by {
                if from < n {
                    assert(run[from] == data[from]);
                    vstd::utf8::is_char_boundary_iff_not_is_continuation_byte(run, from);
                    vstd::utf8::valid_utf8_split(run, from);
                } else {
                    assert(run.subrange(0, from) =~= run);
                }
            }
            vstd::utf8::valid_utf8_concat(run.subrange(0, from), part);
            assert(run.subrange(0, from) + part =~= data.take(to));
            assert(to <= n);
            vstd::utf8::is_char_boundary_iff_not_is_continuation_byte(run, from);
            assert(run[from] == data[from]);
            assert(run.subrange(from, to) =~= part);
            a_text_in_a_text(run, from, to);
            let (before, after) = choose|before: Seq<char>, after: Seq<char>|
                vstd::utf8::decode_utf8(run) == #[trigger] (before + body + after);
            assert(run_of(data, before + body + after));
        } else {
            let rest = data.skip(n + 1);
            assert(rest.subrange(from - n - 1, to - n - 1) =~= part);
            a_text_lies_in_one_run(rest, from - n - 1, to - n - 1);
            let (before, after) = choose|before: Seq<char>, after: Seq<char>|
                #[trigger] run_of(rest, before + body + after);
            assert(run_of(data, before + body + after));
        }
    }
}

/// The prefilter loses nothing the decoded filter would keep: a needle that the
/// body of a message has, case aside, is in the columns the body is read from.
///
/// An ASCII needle is found wherever the body folds in place. Another is found
/// in a body that is the text column itself, and in an archived one wherever the
/// body folds in its run as it does on its own.
pub proof fn the_prefilter_loses_nothing(
    text: Option<Seq<char>>,
    archive: Option<Seq<u8>>,
    body: Seq<char>,
    needle: Seq<char>,
)
    requires
        text::contains(text::lowercase(body), text::lowercase(needle)),
        text == Some(body) || {
            &&& archive is Some
            &&& apple::archived(archive->0) is Some
            &&& vstd::utf8::valid_utf8(apple::archived(archive->0)->0)
            &&& body == vstd::utf8::decode_utf8(apple::archived(archive->0)->0)
        },
        vstd::utf8::is_ascii_chars(needle) ==> text::lowercase(needle) == text::ascii_lowercase(
            needle,
        ) && folds_in_place(body),
        vstd::utf8::is_ascii_chars(needle) || text == Some(body) || folds_in_its_run(
            archive->0,
            body,
        ),
    ensures
        in_body(text, archive, needle),
{
    if !vstd::utf8::is_ascii_chars(needle) {
        if text == Some(body) {
            vstd::utf8::encode_utf8_valid_utf8(body);
            vstd::utf8::encode_utf8_decode_utf8(body);
        } else {
            let data = archive->0;
            apple::a_body_comes_from_its_blob(data);
            let (from, to) = choose|from: int, to: int|
                0 <= from < to <= data.len() && apple::archived(data)->0 == #[trigger] data.subrange(
                    from,
                    to,
                );
            a_text_lies_in_one_run(data, from, to);
            let (before, after) = choose|before: Seq<char>, after: Seq<char>|
                #[trigger] run_of(data, before + body + after);
            let run = before + body + after;
            holding_is_passed_on(
                text::lowercase(run),
                text::lowercase(body),
                text::lowercase(needle),
            );
            a_run_is_gone_through(data, run, needle);
        }
    } else {
        let at = a_plain_needle_is_in_the_bytes(body, needle);
        if text == Some(body) {
            assert(folds_at(vstd::utf8::encode_utf8(body), vstd::utf8::encode_utf8(needle), at));
        } else {
            let data = archive->0;
            apple::a_body_comes_from_its_blob(data);
            let bytes = apple::archived(data)->0;
            vstd::utf8::decode_utf8_encode_utf8(bytes);
            let (from, to) = choose|from: int, to: int|
                0 <= from < to <= data.len() && bytes == #[trigger] data.subrange(from, to);
            let sought = vstd::utf8::encode_utf8(needle);
            assert forall|i: int| 0 <= i < sought.len() implies ascii_lower(data[from + at + i])
                == ascii_lower(#[trigger] sought[i]) by {
                assert(bytes[at + i] == data[from + (at + i)]);
            }
            assert(folds_at(data, sought, from + at));
        }
    }
}

} // verus!
