//! Putting attachments where a body points at them, quoting what a reply
//! answers, and saying why a file could not be had.
use vstd::prelude::*;

use crate::db::{self, Attachment, number, text_column};
use crate::order::{self, Ordered, sort};
use crate::text::{
    self, chars_of, decimal_of, has_char, joined, opens_with, slice_text, text_of, trim_text_end,
    words_of,
};
use crate::{Error, ErrorView};

verus! {

/// What Messages leaves in the body where an attachment sits: U+FFFC OBJECT
/// REPLACEMENT CHARACTER. The file itself lives outside the database.
pub const PLACEHOLDER: char = '\u{fffc}';

/// How much of the answered message to quote. Long enough to recognise, short
/// enough that a transcript does not contain itself twice over.
pub const EXCERPT: usize = 60;

/// How many placeholders `body` holds.
pub open spec fn placeholders(body: Seq<char>) -> nat
    decreases body.len(),
{
    if body.len() == 0 {
        0
    } else {
        placeholders(body.drop_last()) + (if body.last() == PLACEHOLDER {
            1nat
        } else {
            0
        })
    }
}

/// `body` with each placeholder replaced by the attachment of the same ordinal,
/// or by a generic description where there is none.
pub open spec fn filled(body: Seq<char>, attachments: Seq<Attachment>) -> Seq<char>
    decreases body.len(),
{
    if body.len() == 0 {
        Seq::<char>::empty()
    } else {
        let before = filled(body.drop_last(), attachments);
        let nth = placeholders(body.drop_last()) as int;
        if body.last() != PLACEHOLDER {
            before.push(body.last())
        } else if nth < attachments.len() {
            before + attachments[nth].described()
        } else {
            before + "[attachment]"@
        }
    }
}

/// `written` with the attachments from `from` up to `to` behind it, a space
/// between each two things.
pub open spec fn trailed(written: Seq<char>, attachments: Seq<Attachment>, from: int, to: int) -> Seq<
    char,
>
    decreases to - from,
{
    if to <= from {
        written
    } else {
        let before = trailed(written, attachments, from, to - 1);
        (if before.len() > 0 && before.last() != ' ' {
            before.push(' ')
        } else {
            before
        }) + attachments[to - 1].described()
    }
}

/// A body with its attachments in it: each where its placeholder is, in order,
/// and those the body never points at behind it.
pub open spec fn with_attachments(
    body: Option<Seq<char>>,
    attachments: Seq<Attachment>,
) -> Option<Seq<char>> {
    let raw = db::or_empty(body);
    let written = trailed(
        filled(raw, attachments),
        attachments,
        placeholders(raw) as int,
        attachments.len() as int,
    );
    if attachments.len() == 0 && !raw.contains(PLACEHOLDER) {
        body
    } else if written.len() == 0 {
        None
    } else {
        Some(written)
    }
}

/// Put each attachment where its placeholder is, in order.
///
/// Neither side can be assumed to line up with the other, so both leftovers have
/// a defined rendering: a placeholder with nothing behind it becomes a generic
/// description, and an attachment the body never points at is appended rather
/// than dropped.
pub fn describe_attachments(body: Option<String>, attachments: &[Attachment]) -> (out: Option<
    String,
>)
    ensures
        text::maybe(out) == with_attachments(text::maybe(body), attachments@),
{
    let raw: Vec<char> = match &body {
        Some(body) => chars_of(body.as_str()),
        None => Vec::new(),
    };
    proof {
        if body is None {
            assert(raw@ =~= Seq::<char>::empty());
        }
    }
    if attachments.len() == 0 && !has_char(&raw, PLACEHOLDER) {
        return body;
    }
    let mut written: String = String::new();
    let mut next: usize = 0;
    for i in 0..raw.len()
        invariant
            written@ == filled(raw@.take(i as int), attachments@),
            next == (if placeholders(raw@.take(i as int)) < attachments@.len() {
                placeholders(raw@.take(i as int))
            } else {
                attachments@.len()
            }),
    {
        proof {
            assert(raw@.take(i + 1).drop_last() =~= raw@.take(i as int));
        }
        if raw[i] == PLACEHOLDER {
            if next < attachments.len() {
                written.append(attachments[next].describe().as_str());
                next += 1;
            } else {
                written.append("[attachment]");
            }
        } else {
            written.push(raw[i]);
        }
    }
    assert(raw@.take(raw@.len() as int) =~= raw@);
    let ghost base = written@;
    let ghost from = placeholders(raw@) as int;
    let mut to: usize = next;
    while to < attachments.len()
        invariant
            next <= to <= attachments@.len(),
            from <= to || to == attachments@.len(),
            next == (if from < attachments@.len() {
                from
            } else {
                attachments@.len() as int
            }),
            written@ == trailed(base, attachments@, from, to as int),
        decreases attachments@.len() - to,
    {
        let chars = chars_of(written.as_str());
        if chars.len() > 0 && chars[chars.len() - 1] != ' ' {
            written.push(' ');
        }
        written.append(attachments[to].describe().as_str());
        to += 1;
    }
    if written.as_str().is_empty() {
        None
    } else {
        Some(written)
    }
}

/// No attachment is dropped: whatever the body points at, each one is described
/// in what is shown.
pub proof fn every_attachment_is_shown(
    body: Option<Seq<char>>,
    attachments: Seq<Attachment>,
    i: int,
)
    requires
        0 <= i < attachments.len(),
    ensures
        with_attachments(body, attachments) is Some,
        text::contains(with_attachments(body, attachments)->0, attachments[i].described()),
{
    let raw = db::or_empty(body);
    let from = placeholders(raw) as int;
    let base = filled(raw, attachments);
    let whole = trailed(base, attachments, from, attachments.len() as int);
    if i < from {
        filled_holds(raw, attachments, i);
        trailed_keeps(base, attachments, from, attachments.len() as int, attachments[i].described());
    } else {
        trailed_holds(base, attachments, from, attachments.len() as int, i);
    }
    let at = choose|at: int| text::occurs_at(whole, attachments[i].described(), at);
    assert(attachments[i].described().len() > 0) by {
        reveal_strlit("[#");
    }
    assert(whole.len() > 0);
}

proof fn occurs_in_longer(s: Seq<char>, more: Seq<char>, needle: Seq<char>)
    requires
        text::contains(s, needle),
    ensures
        text::contains(s + more, needle),
{
    let at = choose|at: int| text::occurs_at(s, needle, at);
    assert((s + more).subrange(at, at + needle.len() as int) =~= s.subrange(
        at,
        at + needle.len() as int,
    ));
    assert(text::occurs_at(s + more, needle, at));
}

proof fn occurs_at_end(s: Seq<char>, needle: Seq<char>)
    ensures
        text::contains(s + needle, needle),
{
    let at = s.len() as int;
    assert((s + needle).subrange(at, at + needle.len() as int) =~= needle);
    assert(text::occurs_at(s + needle, needle, at));
}

proof fn filled_holds(body: Seq<char>, attachments: Seq<Attachment>, i: int)
    requires
        0 <= i < attachments.len(),
        i < placeholders(body),
    ensures
        text::contains(filled(body, attachments), attachments[i].described()),
    decreases body.len(),
{
    let rest = body.drop_last();
    let before = filled(rest, attachments);
    let nth = placeholders(rest) as int;
    if i < nth {
        filled_holds(rest, attachments, i);
        if body.last() != PLACEHOLDER {
            occurs_in_longer(before, seq![body.last()], attachments[i].described());
            assert(before.push(body.last()) =~= before + seq![body.last()]);
        } else if nth < attachments.len() {
            occurs_in_longer(before, attachments[nth].described(), attachments[i].described());
        } else {
            occurs_in_longer(before, "[attachment]"@, attachments[i].described());
        }
    } else {
        occurs_at_end(before, attachments[i].described());
    }
}

proof fn trailed_keeps(
    written: Seq<char>,
    attachments: Seq<Attachment>,
    from: int,
    to: int,
    needle: Seq<char>,
)
    requires
        text::contains(written, needle),
    ensures
        text::contains(trailed(written, attachments, from, to), needle),
    decreases to - from,
{
    if from < to {
        let before = trailed(written, attachments, from, to - 1);
        trailed_keeps(written, attachments, from, to - 1, needle);
        if before.len() > 0 && before.last() != ' ' {
            occurs_in_longer(before, seq![' '], needle);
            assert(before.push(' ') =~= before + seq![' ']);
            occurs_in_longer(before.push(' '), attachments[to - 1].described(), needle);
        } else {
            occurs_in_longer(before, attachments[to - 1].described(), needle);
        }
    }
}

proof fn trailed_holds(
    written: Seq<char>,
    attachments: Seq<Attachment>,
    from: int,
    to: int,
    i: int,
)
    requires
        from <= i < to,
        0 <= i < attachments.len(),
    ensures
        text::contains(trailed(written, attachments, from, to), attachments[i].described()),
    decreases to - from,
{
    let before = trailed(written, attachments, from, to - 1);
    let gap = if before.len() > 0 && before.last() != ' ' {
        before.push(' ')
    } else {
        before
    };
    if i == to - 1 {
        occurs_at_end(gap, attachments[i].described());
    } else {
        trailed_holds(written, attachments, from, to - 1, i);
        if before.len() > 0 && before.last() != ' ' {
            occurs_in_longer(before, seq![' '], attachments[i].described());
            assert(before.push(' ') =~= before + seq![' ']);
        }
        occurs_in_longer(gap, attachments[to - 1].described(), attachments[i].described());
    }
}

/// A body that goes through here is not left with a bare placeholder in it,
/// unless an attachment's own description brings one.
pub proof fn no_placeholder_is_left(body: Option<Seq<char>>, attachments: Seq<Attachment>)
    requires
        forall|i: int|
            0 <= i < attachments.len() ==> !(#[trigger] attachments[i]).described().contains(
                PLACEHOLDER,
            ),
        with_attachments(body, attachments) is Some,
    ensures
        !with_attachments(body, attachments)->0.contains(PLACEHOLDER),
{
    let raw = db::or_empty(body);
    if attachments.len() > 0 || raw.contains(PLACEHOLDER) {
        filled_is_bare(raw, attachments);
        trailed_is_bare(
            filled(raw, attachments),
            attachments,
            placeholders(raw) as int,
            attachments.len() as int,
        );
    }
}

proof fn filled_is_bare(body: Seq<char>, attachments: Seq<Attachment>)
    requires
        forall|i: int|
            0 <= i < attachments.len() ==> !(#[trigger] attachments[i]).described().contains(
                PLACEHOLDER,
            ),
    ensures
        !filled(body, attachments).contains(PLACEHOLDER),
    decreases body.len(),
{
    if body.len() > 0 {
        filled_is_bare(body.drop_last(), attachments);
        let before = filled(body.drop_last(), attachments);
        let nth = placeholders(body.drop_last()) as int;
        reveal_strlit("[attachment]");
        let added = if body.last() != PLACEHOLDER {
            seq![body.last()]
        } else if nth < attachments.len() {
            attachments[nth].described()
        } else {
            "[attachment]"@
        };
        assert(!added.contains(PLACEHOLDER)) by {
            if body.last() == PLACEHOLDER && nth >= attachments.len() {
                assert(forall|k: int| 0 <= k < 12 ==> #[trigger] "[attachment]"@[k] != PLACEHOLDER);
            }
        }
        assert(filled(body, attachments) =~= before + added);
        bare_together(before, added);
    }
}

proof fn bare_together(a: Seq<char>, b: Seq<char>)
    requires
        !a.contains(PLACEHOLDER),
        !b.contains(PLACEHOLDER),
    ensures
        !(a + b).contains(PLACEHOLDER),
{
    if (a + b).contains(PLACEHOLDER) {
        let i = choose|i: int| 0 <= i < (a + b).len() && (a + b)[i] == PLACEHOLDER;
        if i < a.len() {
            assert(a[i] == PLACEHOLDER);
        } else {
            assert(b[i - a.len()] == PLACEHOLDER);
        }
    }
}

proof fn trailed_is_bare(written: Seq<char>, attachments: Seq<Attachment>, from: int, to: int)
    requires
        !written.contains(PLACEHOLDER),
        to <= attachments.len(),
        0 <= from,
        forall|i: int|
            0 <= i < attachments.len() ==> !(#[trigger] attachments[i]).described().contains(
                PLACEHOLDER,
            ),
    ensures
        !trailed(written, attachments, from, to).contains(PLACEHOLDER),
    decreases to - from,
{
    if from < to {
        let before = trailed(written, attachments, from, to - 1);
        trailed_is_bare(written, attachments, from, to - 1);
        assert(!seq![' '].contains(PLACEHOLDER));
        bare_together(before, seq![' ']);
        assert(before.push(' ') =~= before + seq![' ']);
        let gap = if before.len() > 0 && before.last() != ' ' {
            before.push(' ')
        } else {
            before
        };
        assert(!attachments[to - 1].described().contains(PLACEHOLDER));
        bare_together(gap, attachments[to - 1].described());
    }
}

/// A body on one line: its words with single spaces between them.
pub open spec fn flat(body: Seq<char>) -> Seq<char> {
    text::join(text::words(body), " "@)
}

/// One line of the answered message, cut on a character boundary.
pub open spec fn excerpted(body: Seq<char>) -> Seq<char> {
    if flat(body).len() <= EXCERPT {
        flat(body)
    } else {
        text::trim_end(flat(body).take(EXCERPT as int)) + "…"@
    }
}

/// One line of the answered message, cut on a character boundary.
pub fn excerpt(body: &str) -> (out: String)
    ensures
        out@ == excerpted(body@),
{
    let chars = chars_of(body);
    let words = words_of(&chars);
    let flat = joined(&words, " ");
    let line = chars_of(flat.as_str());
    if line.len() <= EXCERPT {
        return flat;
    }
    let mut kept: Vec<char> = Vec::new();
    for i in 0..EXCERPT
        invariant
            line@.len() > EXCERPT,
            kept@ == line@.take(i as int),
    {
        kept.push(line[i]);
    }
    let kept = trim_text_end(&kept);
    let mut out: String = text_of(&kept);
    out.append("…");
    out
}

/// An excerpt is bounded, whatever it is an excerpt of.
pub proof fn an_excerpt_is_bounded(body: Seq<char>)
    ensures
        excerpted(body).len() <= EXCERPT + 1,
{
    reveal_strlit("…");
    trimming_shortens(flat(body).take(EXCERPT as int));
}

proof fn trimming_shortens(s: Seq<char>)
    ensures
        text::trim_end(s).len() <= s.len(),
        forall|i: int| 0 <= i < text::trim_end(s).len() ==> #[trigger] text::trim_end(s)[i] == s[i],
    decreases s.len(),
{
    if s.len() > 0 && text::white(s.last()) {
        trimming_shortens(s.drop_last());
        assert forall|i: int| 0 <= i < text::trim_end(s).len() implies #[trigger] text::trim_end(
            s,
        )[i] == s[i] by {
            assert(text::trim_end(s.drop_last())[i] == s.drop_last()[i]);
        }
    }
}

/// An excerpt is one line: the only white space in it is a plain space.
pub proof fn an_excerpt_is_one_line(body: Seq<char>, i: int)
    requires
        0 <= i < excerpted(body).len(),
        text::white(excerpted(body)[i]),
    ensures
        excerpted(body)[i] == ' ',
{
    let line = flat(body);
    reveal_strlit("…");
    words_are_solid(body);
    joined_is_plain(text::words(body));
    if line.len() > EXCERPT {
        trimming_shortens(line.take(EXCERPT as int));
        let kept = text::trim_end(line.take(EXCERPT as int));
        if i < kept.len() {
            assert(excerpted(body)[i] == kept[i]);
            assert(kept[i] == line.take(EXCERPT as int)[i]);
        }
    }
}

/// White space only as plain spaces.
spec fn plain(s: Seq<char>) -> bool {
    forall|i: int| 0 <= i < s.len() && text::white(#[trigger] s[i]) ==> s[i] == ' '
}

proof fn words_are_solid(s: Seq<char>)
    ensures
        forall|i: int| 0 <= i < text::words(s).len() ==> plain(#[trigger] text::words(s)[i]),
    decreases s.len(),
{
    if s.len() > 0 {
        words_are_solid(s.drop_last());
        let before = text::words(s.drop_last());
        if !text::white(s.last()) {
            if s.len() == 1 || text::white(s[s.len() - 2]) {
                assert(plain(seq![s.last()]));
            } else if before.len() > 0 {
                assert(plain(before.last()));
                assert(plain(before.last().push(s.last())));
            } else {
                last_word_is_open(s.drop_last());
            }
        }
    }
}

/// A text that ends on a word has one.
proof fn last_word_is_open(s: Seq<char>)
    requires
        s.len() > 0,
        !text::white(s.last()),
    ensures
        text::words(s).len() > 0,
    decreases s.len(),
{
    if s.len() > 1 && !text::white(s[s.len() - 2]) {
        last_word_is_open(s.drop_last());
    }
}

proof fn joined_is_plain(parts: Seq<Seq<char>>)
    requires
        forall|i: int| 0 <= i < parts.len() ==> plain(#[trigger] parts[i]),
    ensures
        plain(text::join(parts, " "@)),
    decreases parts.len(),
{
    reveal_strlit(" ");
    if parts.len() > 1 {
        assert forall|i: int| 0 <= i < parts.drop_last().len() implies plain(
            #[trigger] parts.drop_last()[i],
        ) by {
            assert(parts.drop_last()[i] == parts[i]);
        }
        joined_is_plain(parts.drop_last());
        assert(plain(parts.last()));
    }
}

/// One row of the attachment query.
#[derive(Debug)]
pub struct AttachmentRow {
    pub message_id: Option<i64>,
    pub rowid: Option<i64>,
    pub name: Option<String>,
    pub mime_type: Option<String>,
    pub uti: Option<String>,
    pub total_bytes: Option<i64>,
    pub is_sticker: Option<i64>,
    pub filename: Option<String>,
}

/// `attachment` is what `row` says. A row without a file name is one whose file
/// is not there.
pub open spec fn files(row: AttachmentRow, attachment: Attachment) -> bool {
    &&& attachment.rowid == db::counted(row.rowid)
    &&& text::maybe(attachment.name) == db::column(row.name)
    &&& text::maybe(attachment.mime_type) == db::column(row.mime_type)
    &&& text::maybe(attachment.uti) == db::column(row.uti)
    &&& attachment.total_bytes == db::counted(row.total_bytes)
    &&& attachment.is_sticker == (db::counted(row.is_sticker) == 1)
    &&& attachment.is_downloaded == (db::column(row.filename) is Some)
}

/// The attachment a row is.
pub fn attachment_from_row(row: &AttachmentRow) -> (out: Attachment)
    ensures
        files(*row, out),
{
    Attachment {
        rowid: number(row.rowid),
        name: text_column(text::copied(&row.name)),
        mime_type: text_column(text::copied(&row.mime_type)),
        uti: text_column(text::copied(&row.uti)),
        total_bytes: number(row.total_bytes),
        is_sticker: number(row.is_sticker) == 1,
        is_downloaded: text_column(text::copied(&row.filename)).is_some(),
    }
}

/// The rows that belong to one message, in order.
pub open spec fn rows_of(rows: Seq<AttachmentRow>, message: i64) -> Seq<AttachmentRow>
    decreases rows.len(),
{
    if rows.len() == 0 {
        Seq::empty()
    } else if db::counted(rows.last().message_id) == message {
        rows_of(rows.drop_last(), message).push(rows.last())
    } else {
        rows_of(rows.drop_last(), message)
    }
}

/// `attachments` are what `rows` say, one each and in order.
pub open spec fn files_each(rows: Seq<AttachmentRow>, attachments: Seq<Attachment>) -> bool {
    &&& rows.len() == attachments.len()
    &&& forall|i: int| 0 <= i < rows.len() ==> files(#[trigger] rows[i], attachments[i])
}

/// The attachments of one message, in the order of the rows.
pub fn attachments_of(rows: &[AttachmentRow], message: i64) -> (out: Vec<Attachment>)
    ensures
        files_each(rows_of(rows@, message), out@),
{
    let mut out: Vec<Attachment> = Vec::new();
    for i in 0..rows.len()
        invariant
            files_each(rows_of(rows@.take(i as int), message), out@),
    {
        proof {
            assert(rows@.take(i + 1).drop_last() =~= rows@.take(i as int));
            assert(rows@.take(i + 1).last() == rows@[i as int]);
        }
        if number(rows[i].message_id) == message {
            out.push(attachment_from_row(&rows[i]));
        }
    }
    assert(rows@.take(rows@.len() as int) =~= rows@);
    out
}

/// How many ids one lookup binds at a time, which leaves room under the number
/// of host parameters of every build of SQLite.
pub const ATTACHMENT_BATCH: usize = 900;

/// `ids` without the repeats that stand next to each other.
pub open spec fn without_repeats(ids: Seq<i64>) -> Seq<i64>
    decreases ids.len(),
{
    if ids.len() == 0 {
        Seq::empty()
    } else {
        let before = without_repeats(ids.drop_last());
        if before.len() > 0 && before.last() == ids.last() {
            before
        } else {
            before.push(ids.last())
        }
    }
}

/// The ids a lookup asks about: each once, in order.
pub open spec fn asked(ids: Seq<i64>) -> Seq<i64> {
    without_repeats(order::stably(ids))
}

/// The ids a lookup asks about: each once, in order.
///
/// A message in two conversations is two returned rows with one rowid, so the
/// list can hold it twice. Asking twice across two batches would answer it
/// twice.
pub fn ids_to_ask(ids: &[i64]) -> (out: Vec<i64>)
    ensures
        out@ == asked(ids@),
{
    let mut all: Vec<i64> = Vec::new();
    for i in 0..ids.len()
        invariant
            all@ == ids@.take(i as int),
    {
        all.push(ids[i]);
    }
    assert(all@ =~= ids@);
    let sorted = sort(all);
    let mut out: Vec<i64> = Vec::new();
    for i in 0..sorted.len()
        invariant
            out@ == without_repeats(sorted@.take(i as int)),
    {
        assert(sorted@.take(i + 1).drop_last() =~= sorted@.take(i as int));
        if out.len() == 0 || out[out.len() - 1] != sorted[i] {
            out.push(sorted[i]);
        }
    }
    assert(sorted@.take(sorted@.len() as int) =~= sorted@);
    out
}

/// Nothing is asked about twice, and everything is asked about.
pub proof fn each_id_is_asked_about_once(ids: Seq<i64>)
    ensures
        forall|i: int, j: int| 0 <= i < j < asked(ids).len() ==> asked(ids)[i] != asked(ids)[j],
        forall|id: i64| ids.contains(id) <==> #[trigger] asked(ids).contains(id),
{
    let sorted = order::stably(ids);
    order::sorting_orders(ids);
    order::sorting_keeps_everything(ids);
    assert forall|id: i64| ids.contains(id) <==> #[trigger] sorted.contains(id) by {
        broadcast use vstd::seq_lib::group_to_multiset_ensures;

        assert(ids.to_multiset().count(id) == sorted.to_multiset().count(id));
    }
    assert forall|i: int, j: int| 0 <= i < j < sorted.len() implies sorted[i] <= sorted[j] by {
        assert(!sorted[j].before(&sorted[i]));
    }
    ascending_without_repeats(sorted);
}

proof fn ascending_without_repeats(ids: Seq<i64>)
    requires
        forall|i: int, j: int| 0 <= i < j < ids.len() ==> ids[i] <= ids[j],
    ensures
        forall|i: int, j: int|
            0 <= i < j < without_repeats(ids).len() ==> without_repeats(ids)[i]
                < without_repeats(ids)[j],
        forall|id: i64| ids.contains(id) <==> #[trigger] without_repeats(ids).contains(id),
        ids.len() > 0 ==> without_repeats(ids).len() > 0 && without_repeats(ids).last()
            == ids.last(),
    decreases ids.len(),
{
    if ids.len() > 0 {
        let rest = ids.drop_last();
        let last = ids.last();
        ascending_without_repeats(rest);
        let before = without_repeats(rest);
        let out = without_repeats(ids);
        assert forall|id: i64| ids.contains(id) <==> #[trigger] out.contains(id) by {
            if ids.contains(id) {
                let i = choose|i: int| 0 <= i < ids.len() && ids[i] == id;
                if i < rest.len() {
                    assert(rest[i] == id);
                    assert(before.contains(id));
                    let j = choose|j: int| 0 <= j < before.len() && before[j] == id;
                    assert(out[j] == id);
                } else {
                    assert(out[out.len() - 1] == id);
                }
            }
            if out.contains(id) {
                let j = choose|j: int| 0 <= j < out.len() && out[j] == id;
                if j < before.len() {
                    assert(before[j] == id);
                    assert(before.contains(id));
                    let i = choose|i: int| 0 <= i < rest.len() && rest[i] == id;
                    assert(ids[i] == id);
                } else {
                    assert(ids[ids.len() - 1] == id);
                }
            }
        }
        if before.len() > 0 && before.last() != last {
            assert(rest.last() == ids[ids.len() - 2]);
        }
    }
}

/// Where one attachment's bytes are: a path of its own, or one below the home
/// directory.
#[derive(Debug)]
pub enum FilePath {
    Home(String),
    Absolute(String),
}

/// What the wire may be told of an attachment and its file.
pub open spec fn located(rowid: i64, row: Option<AttachmentRow>, out: Result<
    (FilePath, Attachment),
    Error,
>) -> bool {
    match row {
        None => out is Err && out->Err_0@ == ErrorView::Other(
            "no attachment "@ + text::decimal(rowid as int),
        ),
        Some(row) => match db::column(row.filename) {
            None => out is Err && out->Err_0@ == ErrorView::Other(
                "attachment "@ + text::decimal(rowid as int)
                    + " was never downloaded, so there is no file to save"@,
            ),
            Some(filename) => {
                &&& out is Ok
                &&& files(row, (out->Ok_0).1)
                &&& if "~/"@.is_prefix_of(filename) {
                    (out->Ok_0).0 is Home && (out->Ok_0).0->Home_0@ == filename.skip(2)
                } else {
                    (out->Ok_0).0 is Absolute && (out->Ok_0).0->Absolute_0@ == filename
                }
            },
        },
    }
}

/// Where one attachment's bytes are, by rowid.
///
/// This is the only function that turns an identifier into a path, and it goes
/// that way only. A caller names a row and never a file. `~` is Messages' own
/// shorthand in this column, not a shell convention.
pub fn attachment_path(rowid: i64, row: Option<AttachmentRow>) -> (out: Result<
    (FilePath, Attachment),
    Error,
>)
    ensures
        located(rowid, row, out),
{
    let row = match row {
        Some(row) => row,
        None => {
            let mut message: String = "no attachment ".to_owned();
            message.append(decimal_of(rowid).as_str());
            return Err(Error::Other(message));
        },
    };
    let attachment = attachment_from_row(&row);
    let filename = match text_column(row.filename) {
        Some(filename) => filename,
        None => {
            let mut message: String = "attachment ".to_owned();
            message.append(decimal_of(rowid).as_str());
            message.append(" was never downloaded, so there is no file to save");
            return Err(Error::Other(message));
        },
    };
    let chars = chars_of(filename.as_str());
    let shorthand = chars_of("~/");
    proof {
        reveal_strlit("~/");
    }
    if opens_with(&chars, &shorthand) {
        assert(chars@.subrange(2, chars@.len() as int) =~= chars@.skip(2));
        Ok((FilePath::Home(slice_text(&chars, 2, chars.len())), attachment))
    } else {
        Ok((FilePath::Absolute(filename), attachment))
    }
}

/// Why one attachment could not be opened, told apart rather than guessed at.
pub open spec fn refused(id: i64, permission: bool, error: Seq<char>) -> ErrorView {
    if permission {
        ErrorView::AccessDenied(
            "attachment "@ + text::decimal(id as int)
                + " is there, but reading it was refused ("@ + error + ")"@,
        )
    } else {
        ErrorView::Other(
            "attachment "@ + text::decimal(id as int) + " is recorded but its file is gone ("@
                + error + ")"@,
        )
    }
}

/// Why one attachment could not be opened, told apart rather than guessed at.
///
/// A permission error is the opposite of a missing file — it is there and this
/// process may not have it. Messages purges files behind its own back, so a
/// missing one is a normal state rather than a broken database.
pub fn unreadable(id: i64, permission: bool, error: &str) -> (out: Error)
    ensures
        out@ == refused(id, permission, error@),
{
    let mut message: String = "attachment ".to_owned();
    message.append(decimal_of(id).as_str());
    if permission {
        message.append(" is there, but reading it was refused (");
        message.append(error);
        message.append(")");
        Error::AccessDenied(message)
    } else {
        message.append(" is recorded but its file is gone (");
        message.append(error);
        message.append(")");
        Error::Other(message)
    }
}

/// The characters of a text that are not white space, in order.
pub open spec fn solid(s: Seq<char>) -> Seq<char>
    decreases s.len(),
{
    if s.len() == 0 {
        Seq::empty()
    } else if text::white(s.last()) {
        solid(s.drop_last())
    } else {
        solid(s.drop_last()).push(s.last())
    }
}

proof fn solid_adds(a: Seq<char>, b: Seq<char>)
    ensures
        solid(a + b) == solid(a) + solid(b),
    decreases b.len(),
{
    if b.len() == 0 {
        assert(a + b =~= a);
        assert(solid(a) + solid(b) =~= solid(a));
    } else {
        assert((a + b).drop_last() =~= a + b.drop_last());
        solid_adds(a, b.drop_last());
        assert(solid(a + b) =~= solid(a) + solid(b));
    }
}

/// A body on one line is the same body: not a character of it is lost, added or moved,
/// but for the white space between its words.
pub proof fn one_line_loses_nothing(body: Seq<char>)
    ensures
        solid(flat(body)) == solid(body),
    decreases body.len(),
{
    reveal_strlit(" ");
    let words = text::words(body);
    if body.len() > 0 {
        let front = body.drop_last();
        let before = text::words(front);
        one_line_loses_nothing(front);
        let c = body.last();
        if text::white(c) {
        } else if body.len() == 1 || text::white(body[body.len() - 2]) {
            assert(words.drop_last() =~= before);
            assert(words.last() == seq![c]);
            assert(seq![c].drop_last() =~= Seq::<char>::empty());
            assert(solid(seq![c]) =~= seq![c]) by {
                reveal_with_fuel(solid, 2);
            }
            if before.len() == 0 {
                assert(flat(front) =~= Seq::<char>::empty());
                assert(flat(body) == seq![c]);
                assert(solid(front) =~= Seq::<char>::empty());
                assert(solid(body) =~= seq![c]);
            } else {
                solid_adds(flat(front), " "@);
                solid_adds(flat(front) + " "@, seq![c]);
                assert(" "@.drop_last() =~= Seq::<char>::empty());
                assert(solid(" "@) =~= Seq::<char>::empty()) by {
                    reveal_with_fuel(solid, 2);
                }
                assert(solid(flat(body)) =~= solid(body));
            }
        } else {
            last_word_is_open(front);
            let longer = before.last().push(c);
            assert(words == before.drop_last().push(longer));
            assert(words.drop_last() =~= before.drop_last());
            assert(flat(body) =~= flat(front).push(c)) by {
                if before.len() == 1 {
                    assert(flat(front) == before[0]);
                    assert(flat(body) == words[0]);
                } else {
                    let rest = text::join(before.drop_last(), " "@);
                    assert(flat(front) == rest + " "@ + before.last());
                    assert(flat(body) == rest + " "@ + longer);
                }
            }
            assert(flat(body).drop_last() =~= flat(front));
        }
    }
}

/// What is quoted of a message is how it begins: all of it where it is short, and else
/// its first characters, with nothing but white space left out before the cut and an
/// ellipsis behind it.
pub proof fn an_excerpt_is_how_a_message_begins(body: Seq<char>)
    ensures
        flat(body).len() <= 60 ==> excerpted(body) == flat(body),
        flat(body).len() > 60 ==> {
            let kept = excerpted(body).drop_last();
            &&& excerpted(body).len() > 0
            &&& excerpted(body).last() == '…'
            &&& kept.is_prefix_of(flat(body))
            &&& kept.len() <= 60
            &&& kept.len() > 0 ==> !text::white(kept.last())
            &&& forall|i: int| kept.len() <= i < 60 ==> text::white(#[trigger] flat(body)[i])
        },
{
    reveal_strlit("…");
    if flat(body).len() > 60 {
        let cut = flat(body).take(60);
        let kept = text::trim_end(cut);
        trimming_shortens(cut);
        only_space_is_trimmed(cut);
        assert(excerpted(body).drop_last() =~= kept);
        assert(kept =~= flat(body).take(kept.len() as int)) by {
            assert forall|i: int| 0 <= i < kept.len() implies kept[i] == flat(body)[i] by {
                assert(kept[i] == cut[i]);
            }
        }
        assert forall|i: int| kept.len() <= i < 60 implies text::white(#[trigger] flat(body)[i]) by {
            assert(cut[i] == flat(body)[i]);
        }
    }
}

proof fn only_space_is_trimmed(s: Seq<char>)
    ensures
        forall|i: int| text::trim_end(s).len() <= i < s.len() ==> text::white(#[trigger] s[i]),
        text::trim_end(s).len() > 0 ==> !text::white(text::trim_end(s).last()),
    decreases s.len(),
{
    if s.len() > 0 && text::white(s.last()) {
        only_space_is_trimmed(s.drop_last());
        assert forall|i: int| text::trim_end(s).len() <= i < s.len() implies text::white(
            #[trigger] s[i],
        ) by {
            if i < s.len() - 1 {
                assert(s.drop_last()[i] == s[i]);
            }
        }
    }
}

/// An excerpt quotes the message it is of: its characters, white space aside, are the
/// first ones of the message.
pub proof fn an_excerpt_quotes_its_message(body: Seq<char>)
    ensures
        ({
            let kept = if flat(body).len() > 60 {
                excerpted(body).drop_last()
            } else {
                excerpted(body)
            };
            solid(kept).is_prefix_of(solid(body))
        }),
{
    an_excerpt_is_how_a_message_begins(body);
    one_line_loses_nothing(body);
    let kept = if flat(body).len() > 60 {
        excerpted(body).drop_last()
    } else {
        excerpted(body)
    };
    let n = kept.len() as int;
    let line = flat(body);
    assert(line =~= line.take(n) + line.skip(n));
    assert(line.take(n) =~= kept);
    solid_adds(kept, line.skip(n));
    assert(solid(line).take(solid(kept).len() as int) =~= solid(kept));
}

/// Attachments stand where the body points at them, in their order: what is before the
/// first placeholder is as it was, the first attachment is in its place, and the rest
/// of the body goes on with the rest of them.
pub proof fn an_attachment_stands_in_its_place(
    before: Seq<char>,
    after: Seq<char>,
    attachments: Seq<Attachment>,
)
    requires
        !before.contains(PLACEHOLDER),
    ensures
        filled(before, attachments) == before,
        attachments.len() > 0 ==> filled(before.push(PLACEHOLDER) + after, attachments) == before
            + attachments[0].described() + filled(after, attachments.drop_first()),
        attachments.len() == 0 ==> filled(before.push(PLACEHOLDER) + after, attachments) == before
            + "[attachment]"@ + filled(after, attachments),
    decreases after.len(),
{
    nothing_to_fill(before, attachments);
    let first = before.push(PLACEHOLDER);
    let none = Seq::<char>::empty();
    let rest = if attachments.len() > 0 {
        attachments.drop_first()
    } else {
        attachments
    };
    let shown = if attachments.len() > 0 {
        attachments[0].described()
    } else {
        "[attachment]"@
    };
    if after.len() == 0 {
        assert(first + after =~= first);
        assert(first.drop_last() =~= before);
        assert(filled(first, attachments) =~= before + shown);
        assert(before + shown + filled(after, rest) =~= before + shown);
    } else {
        let all = first + after;
        an_attachment_stands_in_its_place(before, after.drop_last(), attachments);
        assert(all.drop_last() =~= first + after.drop_last());
        assert(all.last() == after.last());
        one_more_placeholder(before, after.drop_last());
        let nth = placeholders(after.drop_last()) as int;
        if attachments.len() > 0 && nth < rest.len() {
            assert(rest[nth] == attachments[nth + 1]);
        }
        assert(filled(all, attachments) =~= before + shown + filled(after, rest));
    }
}

proof fn nothing_to_fill(body: Seq<char>, attachments: Seq<Attachment>)
    requires
        !body.contains(PLACEHOLDER),
    ensures
        filled(body, attachments) == body,
        placeholders(body) == 0,
    decreases body.len(),
{
    if body.len() > 0 {
        let front = body.drop_last();
        assert(!front.contains(PLACEHOLDER)) by {
            if front.contains(PLACEHOLDER) {
                let i = choose|i: int| 0 <= i < front.len() && front[i] == PLACEHOLDER;
                assert(body[i] == PLACEHOLDER);
            }
        }
        assert(body[body.len() - 1] != PLACEHOLDER);
        nothing_to_fill(front, attachments);
        assert(front.push(body.last()) =~= body);
    } else {
        assert(filled(body, attachments) =~= body);
    }
}

proof fn one_more_placeholder(before: Seq<char>, after: Seq<char>)
    requires
        !before.contains(PLACEHOLDER),
    ensures
        placeholders(before.push(PLACEHOLDER) + after) == 1 + placeholders(after),
    decreases after.len(),
{
    let first = before.push(PLACEHOLDER);
    if after.len() == 0 {
        nothing_to_fill(before, Seq::empty());
        assert(first + after =~= first);
        assert(first.drop_last() =~= before);
    } else {
        one_more_placeholder(before, after.drop_last());
        assert((first + after).drop_last() =~= first + after.drop_last());
    }
}

/// A body is kept: where it has no placeholder, what it says comes first and the
/// attachments behind it.
pub proof fn a_body_is_kept(body: Seq<char>, attachments: Seq<Attachment>)
    requires
        !body.contains(PLACEHOLDER),
    ensures
        attachments.len() == 0 ==> with_attachments(Some(body), attachments) == Some(body),
        attachments.len() > 0 ==> with_attachments(Some(body), attachments) is Some
            && body.is_prefix_of(with_attachments(Some(body), attachments)->0),
{
    if attachments.len() > 0 {
        every_attachment_is_shown(Some(body), attachments, 0);
        nothing_to_fill(body, attachments);
        trailing_goes_behind(body, attachments, 0, attachments.len() as int);
    }
}

proof fn trailing_goes_behind(
    written: Seq<char>,
    attachments: Seq<Attachment>,
    from: int,
    to: int,
)
    ensures
        written.is_prefix_of(trailed(written, attachments, from, to)),
    decreases to - from,
{
    if from < to {
        trailing_goes_behind(written, attachments, from, to - 1);
        let before = trailed(written, attachments, from, to - 1);
        let all = trailed(written, attachments, from, to);
        assert(all.take(before.len() as int) =~= before);
        assert(all.take(written.len() as int) =~= before.take(written.len() as int));
    } else {
        assert(written.take(written.len() as int) =~= written);
    }
}

/// Each message gets its own attachments, all of them and in their order: a row goes to
/// the message it names and to no other.
pub proof fn attachments_go_to_their_message(rows: Seq<AttachmentRow>, message: i64, i: int)
    requires
        0 <= i < rows.len(),
    ensures
        forall|j: int|
            0 <= j < rows_of(rows, message).len() ==> db::counted(
                (#[trigger] rows_of(rows, message)[j]).message_id,
            ) == message,
        db::counted(rows[i].message_id) == message ==> rows_of(rows, message).contains(rows[i]),
    decreases rows.len(),
{
    let front = rows.drop_last();
    let before = rows_of(front, message);
    if front.len() > 0 {
        let k = if i < front.len() {
            i
        } else {
            0
        };
        attachments_go_to_their_message(front, message, k);
    }
    let out = rows_of(rows, message);
    if i == rows.len() - 1 {
        if db::counted(rows[i].message_id) == message {
            assert(out[out.len() - 1] == rows[i]);
        }
    } else {
        assert(front[i] == rows[i]);
        if db::counted(rows[i].message_id) == message {
            let j = choose|j: int| 0 <= j < before.len() && before[j] == rows[i];
            assert(out[j] == rows[i]);
        }
    }
}

/// An attachment is what its row says, column by column; its file is there where the row
/// names one.
pub proof fn an_attachment_is_what_its_row_says(row: AttachmentRow, attachment: Attachment)
    requires
        files(row, attachment),
    ensures
        row.rowid matches Some(rowid) ==> attachment.rowid == rowid,
        db::filled_in(row.name) ==> attachment.name is Some && attachment.name->0@ == row.name->0@,
        !db::filled_in(row.name) ==> attachment.name is None,
        db::filled_in(row.mime_type) ==> attachment.mime_type is Some && attachment.mime_type->0@
            == row.mime_type->0@,
        db::filled_in(row.uti) ==> attachment.uti is Some && attachment.uti->0@ == row.uti->0@,
        row.total_bytes matches Some(bytes) ==> attachment.total_bytes == bytes,
        attachment.is_sticker <==> row.is_sticker == Some(1i64),
        attachment.is_downloaded <==> db::filled_in(row.filename),
{
}

/// A file is where its row says it is: below the home directory where the row says so with
/// a tilde, and at the path it names otherwise. Without a file there is nothing to save,
/// and the error says of which attachment.
pub proof fn a_file_is_where_its_row_says(
    rowid: i64,
    row: AttachmentRow,
    below: Seq<char>,
    out: Result<(FilePath, Attachment), Error>,
)
    requires
        located(rowid, Some(row), out),
    ensures
        out is Ok <==> db::filled_in(row.filename),
        db::filled_in(row.filename) && row.filename->0@ == "~/"@ + below ==> (out matches Ok(
            (FilePath::Home(path), _),
        ) && path@ == below),
        db::filled_in(row.filename) && row.filename->0@[0] != '~' ==> (out matches Ok(
            (FilePath::Absolute(path), _),
        ) && path@ == row.filename->0@),
        out matches Err(error) ==> (error@ matches ErrorView::Other(words) && text::contains(
            words,
            "attachment "@ + text::decimal(rowid as int),
        )),
{
    reveal_strlit("~/");
    if db::filled_in(row.filename) {
        let filename = row.filename->0@;
        if filename == "~/"@ + below {
            assert(filename.take(2) =~= "~/"@);
            assert("~/"@.is_prefix_of(filename));
            assert(filename.skip(2) =~= below);
        }
        if filename[0] != '~' {
            assert(!"~/"@.is_prefix_of(filename)) by {
                assert("~/"@[0] == '~');
                if "~/"@.is_prefix_of(filename) {
                    assert(filename.subrange(0, 2)[0] == filename[0]);
                }
            }
        }
    }
    let named = "attachment "@ + text::decimal(rowid as int);
    let behind = " was never downloaded, so there is no file to save"@;
    assert(named + behind =~= Seq::<char>::empty() + named + behind);
    text::a_piece_is_held(Seq::empty(), named, behind);
}

/// A file that may not be read is a denial and one that is gone is not, and either says
/// which attachment it was and what went wrong.
pub proof fn a_refused_file_is_not_a_missing_one(id: i64, permission: bool, error: Seq<char>)
    ensures
        refused(id, permission, error) is AccessDenied <==> permission,
        match refused(id, permission, error) {
            ErrorView::AccessDenied(words) => text::contains(words, error) && text::contains(
                words,
                "attachment "@ + text::decimal(id as int),
            ),
            ErrorView::Other(words) => text::contains(words, error) && text::contains(
                words,
                "attachment "@ + text::decimal(id as int),
            ),
            _ => false,
        },
{
    let named = "attachment "@ + text::decimal(id as int);
    let middle = if permission {
        " is there, but reading it was refused ("@
    } else {
        " is recorded but its file is gone ("@
    };
    let words = named + middle + error + ")"@;
    text::a_piece_is_held(named + middle, error, ")"@);
    assert(words =~= Seq::<char>::empty() + named + (middle + error + ")"@));
    text::a_piece_is_held(Seq::empty(), named, middle + error + ")"@);
}

} // verus!
