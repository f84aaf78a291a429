//! Driving Messages over Apple Events.
//!
//! Only the daemon does this. Apple Events are gated by Automation, which is a
//! separate grant from Full Disk Access, so `msgd` can be allowed to send while
//! being refused the database, or the reverse.
use vstd::prelude::*;

use crate::text::{self, chars_of, pieces, same, slice_text, trim_text};
use crate::{Error, ErrorView};

verus! {

/// A script, and what is handed to its `on run`. Arguments are passed rather
/// than written into the script, so quotes and backslashes need no escaping.
#[derive(Debug)]
pub struct Script {
    pub source: String,
    pub args: Vec<String>,
}

pub const SEND_TEXT: &'static str = "
on run {chatGuid, body}
  tell application \"Messages\"
    send body to chat id chatGuid
  end tell
end run
";

pub const SEND_FILE: &'static str = "
on run {chatGuid, filePath}
  tell application \"Messages\"
    send POSIX file filePath to chat id chatGuid
  end tell
end run
";

/// Asks Messages how many conversations it has, which sends nothing.
///
/// It has to be an event that macOS gates. A standard one like `get name` is
/// answered without any grant at all, and so would report "allowed" on a machine
/// where sending is refused.
pub const COUNT_CHATS: &'static str = "tell application \"Messages\" to count of chats";

/// Two arguments.
pub(crate) fn pair(first: &str, second: &str) -> (out: Vec<String>)
    ensures
        text::all_of(out@) == seq![first@, second@],
{
    let mut out: Vec<String> = Vec::new();
    out.push(first.to_owned());
    out.push(second.to_owned());
    assert(text::all_of(out@) =~= seq![first@, second@]);
    out
}

/// The script that sends a text to a conversation.
pub fn send_message(chat_guid: &str, body: &str) -> (out: Script)
    ensures
        out.source@ == SEND_TEXT@,
        text::all_of(out.args@) == seq![chat_guid@, body@],
{
    Script { source: SEND_TEXT.to_owned(), args: pair(chat_guid, body) }
}

/// The script that sends a file to a conversation: one the daemon wrote itself,
/// from bytes it was handed. It never takes a path.
pub fn send_file(chat_guid: &str, path: &str) -> (out: Script)
    ensures
        out.source@ == SEND_FILE@,
        text::all_of(out.args@) == seq![chat_guid@, path@],
{
    Script { source: SEND_FILE.to_owned(), args: pair(chat_guid, path) }
}

/// What a script that failed said, or how it ended where it said nothing.
pub open spec fn failure(stderr: Seq<char>, status: Seq<char>) -> Seq<char> {
    if text::trim(stderr).len() == 0 {
        "osascript failed: "@ + status
    } else {
        text::trim(stderr)
    }
}

/// What came of a script that sends.
pub fn sent(success: bool, stderr: &str, status: &str) -> (out: Result<(), Error>)
    ensures
        out is Ok <==> success,
        out matches Err(error) ==> error@ == ErrorView::Other(failure(stderr@, status@)),
{
    if success {
        return Ok(());
    }
    let words = trim_text(stderr);
    if words.as_str().is_empty() {
        let mut message: String = "osascript failed: ".to_owned();
        message.append(status);
        Err(Error::Other(message))
    } else {
        Err(Error::Other(words))
    }
}

/// What to say of a script that could not be started.
pub fn not_started(error: &str) -> (out: Error)
    ensures
        out@ == ErrorView::Other("could not run osascript: "@ + error@),
{
    let mut message: String = "could not run osascript: ".to_owned();
    message.append(error);
    Error::Other(message)
}

/// What the count of conversations says about the permission.
pub open spec fn counted(
    success: bool,
    stdout: Seq<char>,
    stderr: Seq<char>,
    status: Seq<char>,
) -> Seq<char> {
    if success {
        text::trim(stdout) + " conversations visible to Messages"@
    } else if text::trim(stderr).len() == 0 {
        "osascript exited "@ + status
    } else {
        text::trim(stderr)
    }
}

/// Whether Messages may be driven, and what it said.
pub fn check_automation(success: bool, stdout: &str, stderr: &str, status: &str) -> (out: (
    bool,
    String,
))
    ensures
        out.0 == success,
        out.1@ == counted(success, stdout@, stderr@, status@),
{
    if success {
        let mut detail: String = trim_text(stdout);
        detail.append(" conversations visible to Messages");
        return (true, detail);
    }
    let words = trim_text(stderr);
    if words.as_str().is_empty() {
        let mut detail: String = "osascript exited ".to_owned();
        detail.append(status);
        (false, detail)
    } else {
        (false, words)
    }
}

/// The last of the parts of a path that names something: not an empty one, which
/// a doubled or a closing slash leaves, and not `.`.
pub open spec fn last_named(parts: Seq<Seq<char>>) -> Option<Seq<char>>
    decreases parts.len(),
{
    if parts.len() == 0 {
        None
    } else if parts.last().len() == 0 || parts.last() == "."@ {
        last_named(parts.drop_last())
    } else {
        Some(parts.last())
    }
}

/// The file name of a path, and nothing for one that ends in `..` or is only a
/// directory.
pub open spec fn file_name(path: Seq<char>) -> Seq<char> {
    match last_named(text::split(path, '/')) {
        Some(name) => if name == ".."@ {
            Seq::<char>::empty()
        } else {
            name
        },
        None => Seq::<char>::empty(),
    }
}

/// A name without the dots it opens with.
pub open spec fn undotted(name: Seq<char>) -> Seq<char>
    decreases name.len(),
{
    if name.len() > 0 && name[0] == '.' {
        undotted(name.drop_first())
    } else {
        name
    }
}

/// The name an attachment is written under, with anything that could escape the
/// directory removed.
pub open spec fn safe_name(name: Seq<char>) -> Seq<char> {
    let safe = undotted(file_name(name));
    if safe.len() == 0 {
        "attachment"@
    } else {
        safe
    }
}

/// The file name of a path, or nothing.
pub fn file_name_of(path: &str) -> (out: String)
    ensures
        out@ == file_name(path@),
{
    let parts = pieces(&chars_of(path), '/');
    let ghost all = text::split(path@, '/');
    let mut at: usize = parts.len();
    assert(all.take(at as int) =~= all);
    while at > 0
        invariant
            at <= parts@.len(),
            text::all_of(parts@) == all,
            all == text::split(path@, '/'),
            last_named(all) == last_named(all.take(at as int)),
        decreases at,
    {
        let part = &parts[at - 1];
        proof {
            assert(all.take(at as int).drop_last() =~= all.take(at - 1));
            assert(all.take(at as int).last() == part@);
        }
        if !part.as_str().is_empty() && !same(part.as_str(), ".") {
            if same(part.as_str(), "..") {
                return String::new();
            }
            return part.clone();
        }
        at -= 1;
    }
    String::new()
}

/// The name an attachment is written under.
///
/// The client chooses this string, and it becomes a path the daemon writes to.
pub fn attachment_name(name: &str) -> (out: String)
    ensures
        out@ == safe_name(name@),
{
    let base = chars_of(file_name_of(name).as_str());
    let mut from: usize = 0;
    assert(base@.skip(0) =~= base@);
    while from < base.len() && base[from] == '.'
        invariant
            from <= base@.len(),
            undotted(base@) == undotted(base@.skip(from as int)),
        decreases base@.len() - from,
    {
        assert(base@.skip(from as int).drop_first() =~= base@.skip(from + 1));
        from += 1;
    }
    assert(undotted(base@) == base@.skip(from as int));
    if from == base.len() {
        "attachment".to_owned()
    } else {
        let safe = slice_text(&base, from, base.len());
        assert(safe@ =~= base@.skip(from as int));
        safe
    }
}

proof fn undotted_is_part(name: Seq<char>)
    ensures
        undotted(name).len() <= name.len(),
        undotted(name) == name.skip(name.len() - undotted(name).len()),
        undotted(name).len() > 0 ==> undotted(name)[0] != '.',
    decreases name.len(),
{
    if name.len() > 0 && name[0] == '.' {
        undotted_is_part(name.drop_first());
        let rest = undotted(name.drop_first());
        assert(name.drop_first().skip(name.len() - 1 - rest.len()) =~= name.skip(
            name.len() - rest.len(),
        ));
    } else {
        assert(name.skip(0) =~= name);
    }
}

proof fn parts_have_no_slash(s: Seq<char>, i: int)
    requires
        0 <= i < text::split(s, '/').len(),
    ensures
        !text::split(s, '/')[i].contains('/'),
    decreases s.len(),
{
    if s.len() > 0 {
        let rest = s.drop_last();
        let before = text::split(rest, '/');
        let all = text::split(s, '/');
        text::split_is_never_empty(rest, '/');
        if i < all.len() - 1 {
            assert(all[i] == before[i]);
            parts_have_no_slash(rest, i);
        } else if s.last() != '/' {
            parts_have_no_slash(rest, before.len() - 1);
            let grown = before.last().push(s.last());
            assert(all[i] == grown);
            assert(!grown.contains('/')) by {
                if grown.contains('/') {
                    let j = choose|j: int| 0 <= j < grown.len() && grown[j] == '/';
                    assert(before.last()[j] == '/');
                    assert(before.last().contains('/'));
                }
            }
        }
    }
}

proof fn named_is_a_part(parts: Seq<Seq<char>>) -> (i: int)
    requires
        last_named(parts) is Some,
    ensures
        0 <= i < parts.len(),
        parts[i] == last_named(parts)->0,
    decreases parts.len(),
{
    if parts.last().len() == 0 || parts.last() == "."@ {
        let i = named_is_a_part(parts.drop_last());
        assert(parts[i] == parts.drop_last()[i]);
        i
    } else {
        parts.len() - 1
    }
}

/// Whatever name a client sends, the file is written inside the directory and in
/// plain sight: the name is not empty, holds no slash, and opens with no dot.
pub proof fn an_attachment_stays_in_its_directory(name: Seq<char>)
    ensures
        safe_name(name).len() > 0,
        !safe_name(name).contains('/'),
        safe_name(name)[0] != '.',
{
    reveal_strlit("attachment");
    let base = file_name(name);
    undotted_is_part(base);
    if undotted(base).len() > 0 {
        let parts = text::split(name, '/');
        let i = named_is_a_part(parts);
        parts_have_no_slash(name, i);
        let safe = undotted(base);
        assert(!safe.contains('/')) by {
            if safe.contains('/') {
                let j = choose|j: int| 0 <= j < safe.len() && safe[j] == '/';
                assert(base[base.len() - safe.len() + j] == '/');
                assert(base.contains('/'));
            }
        }
    }
}

/// A script that failed is told in its own words where it said any, and else by how it
/// ended.
pub proof fn a_failure_is_told_in_its_own_words(stderr: Seq<char>, status: Seq<char>)
    ensures
        text::trim(stderr).len() > 0 ==> failure(stderr, status) == text::trim(stderr),
        text::trim(stderr).len() == 0 ==> status.is_suffix_of(failure(stderr, status)),
        text::trim(stderr).len() > 0 ==> forall|stdout: Seq<char>|
            #[trigger] counted(false, stdout, stderr, status) == text::trim(stderr),
        text::trim(stderr).len() == 0 ==> forall|stdout: Seq<char>|
            status.is_suffix_of(#[trigger] counted(false, stdout, stderr, status)),
{
    if text::trim(stderr).len() == 0 {
        let words = failure(stderr, status);
        assert(words.skip(words.len() - status.len()) =~= status);
        let other = "osascript exited "@ + status;
        assert(other.skip(other.len() - status.len()) =~= status);
    }
}

/// What Messages counted is what is told, whatever else was said.
pub proof fn a_count_is_what_messages_said(
    stdout: Seq<char>,
    stderr: Seq<char>,
    status: Seq<char>,
)
    ensures
        text::trim(stdout).is_prefix_of(counted(true, stdout, stderr, status)),
{
    let told = counted(true, stdout, stderr, status);
    assert(told.take(text::trim(stdout).len() as int) =~= text::trim(stdout));
}

/// A plain name is kept as it is, and whatever directory stands before it is left out.
pub proof fn a_plain_name_is_kept(directory: Seq<char>, name: Seq<char>)
    requires
        name.len() > 0,
        name[0] != '.',
        !name.contains('/'),
    ensures
        safe_name(name) == name,
        safe_name(directory.push('/') + name) == name,
{
    reveal_strlit(".");
    reveal_strlit("..");
    text::what_is_not_cut_is_whole(name, '/');
    text::pieces_of_both(directory, name, '/');
    let parts = text::split(directory.push('/') + name, '/');
    assert(parts.last() == name);
    assert("."@[0] == '.');
    assert(".."@[0] == '.');
    assert(text::split(name, '/').last() == name);
}

} // verus!
