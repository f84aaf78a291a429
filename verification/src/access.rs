//! Where the database is, and what a failure to open it means.
use vstd::prelude::*;

use crate::daemon::protocol::DENIED;
use crate::text::{self, chars_of, text_has};
use crate::{Error, ErrorView};

verus! {

/// `relative` under a directory: a slash between the two, unless the directory
/// ends in one or is nowhere.
pub open spec fn under(directory: Seq<char>, relative: Seq<char>) -> Seq<char> {
    if directory.len() == 0 || directory.last() == '/' {
        directory + relative
    } else {
        directory + "/"@ + relative
    }
}

/// `relative` under a directory.
pub fn path_under(directory: &str, relative: &str) -> (out: String)
    ensures
        out@ == under(directory@, relative@),
{
    let mut out: String = directory.to_owned();
    let chars = chars_of(directory);
    if chars.len() > 0 && chars[chars.len() - 1] != '/' {
        out.append("/");
    }
    out.append(relative);
    out
}

/// A setting that was made: present, and not empty.
pub open spec fn made(setting: Option<Seq<char>>) -> Option<Seq<char>> {
    match setting {
        Some(value) => if value.len() > 0 {
            Some(value)
        } else {
            None
        },
        None => None,
    }
}

/// A setting that was made, or what stands without one.
pub open spec fn setting_or(setting: Option<Seq<char>>, otherwise: Seq<char>) -> Seq<char> {
    match made(setting) {
        Some(value) => value,
        None => otherwise,
    }
}

/// A setting that was made.
pub fn set_to(setting: Option<&str>) -> (out: Option<&str>)
    ensures
        text::maybe_str(out) == made(text::maybe_str(setting)),
{
    match setting {
        Some(value) => if value.is_empty() {
            None
        } else {
            Some(value)
        },
        None => None,
    }
}

/// Where Messages keeps its database, in a home directory.
pub fn default_db(home: &str) -> (out: String)
    ensures
        out@ == under(home@, "Library/Messages/chat.db"@),
{
    path_under(home, "Library/Messages/chat.db")
}

/// The database to read: the one named outright, else the one `MSG_DB` names,
/// else Messages' own.
pub open spec fn database(
    over: Option<Seq<char>>,
    environment: Option<Seq<char>>,
    home: Seq<char>,
) -> Seq<char> {
    setting_or(over, setting_or(environment, under(home, "Library/Messages/chat.db"@)))
}

/// The database to read.
pub fn database_path(over: Option<&str>, environment: Option<&str>, home: &str) -> (out: String)
    ensures
        out@ == database(text::maybe_str(over), text::maybe_str(environment), home@),
{
    match (set_to(over), set_to(environment)) {
        (Some(path), _) => path.to_owned(),
        (None, Some(path)) => path.to_owned(),
        (None, None) => default_db(home),
    }
}

/// What a reader is told who may not read the database. Two ways out, and the
/// daemon is the better one: it holds the grant instead of the terminal, so
/// nothing else run from that shell inherits it.
pub open spec fn denied(location: Seq<char>) -> Seq<char> {
    "cannot read "@ + location
        + "\n\nInstall the daemon, which holds Full Disk Access so your terminal does not:\n  msg daemon install\n\nOr grant Full Disk Access to your terminal in System Settings > Privacy & Security >\nFull Disk Access, then restart it."@
}

/// What a reader is told who may not read the database.
pub fn denied_message(location: &str) -> (out: String)
    ensures
        out@ == denied(location@),
{
    let mut out: String = "cannot read ".to_owned();
    out.append(location);
    out.append(
        "\n\nInstall the daemon, which holds Full Disk Access so your terminal does not:\n  msg daemon install\n\nOr grant Full Disk Access to your terminal in System Settings > Privacy & Security >\nFull Disk Access, then restart it.",
    );
    out
}

/// A failure that is about permission.
pub open spec fn permission(words: Seq<char>) -> bool {
    let lower = text::lowercase(words);
    text::contains(lower, "authorization denied"@) || text::contains(lower, "permission"@)
}

/// Whether a failure is about permission.
pub fn reads_as_permission(words: &str) -> (yes: bool)
    ensures
        yes == permission(words@),
{
    let lower = words.to_lowercase();
    text_has(lower.as_str(), "authorization denied") || text_has(lower.as_str(), "permission")
}

/// What to say of a database that is not there.
pub fn missing_database(location: &str) -> (out: Error)
    ensures
        out@ == ErrorView::AccessDenied("no Messages database at "@ + location@),
{
    let mut message: String = "no Messages database at ".to_owned();
    message.append(location);
    Error::AccessDenied(message)
}

/// What to do about a database that could not be opened.
#[derive(Debug)]
pub enum Opening {
    /// Give up, and say this.
    Refuse(Error),
    /// Read a copy of it instead.
    Snapshot,
}

/// What a failure to open the database means, given who is asking: a reader that
/// may take a snapshot, or the daemon, which may not.
///
/// A denial reaches SQLite as `unable to open database file`, which is also what
/// a locked write-ahead log says. A reader resolves that by trying a snapshot;
/// the daemon has none to fall back on, so for it the answer is always the
/// permission.
pub open spec fn refusal(
    location: Seq<char>,
    words: Seq<char>,
    allow_snapshot: bool,
) -> Option<ErrorView> {
    let advice = if allow_snapshot {
        denied(location)
    } else {
        DENIED@
    };
    if permission(words) {
        Some(ErrorView::AccessDenied(advice))
    } else if allow_snapshot {
        None
    } else {
        Some(ErrorView::AccessDenied(advice + "\n\n"@ + words))
    }
}

/// What a failure to open the database means.
pub fn open_failure(location: &str, words: &str, allow_snapshot: bool) -> (out: Opening)
    ensures
        out is Snapshot <==> refusal(location@, words@, allow_snapshot) is None,
        out matches Opening::Refuse(error) ==> Some(error@) == refusal(
            location@,
            words@,
            allow_snapshot,
        ),
{
    let mut advice: String = if allow_snapshot {
        denied_message(location)
    } else {
        DENIED.to_owned()
    };
    if reads_as_permission(words) {
        return Opening::Refuse(Error::AccessDenied(advice));
    }
    if allow_snapshot {
        return Opening::Snapshot;
    }
    advice.append("\n\n");
    advice.append(words);
    Opening::Refuse(Error::AccessDenied(advice))
}

/// What a failure to copy the database means. A refused copy is a denial like any
/// other, as an errno rather than in SQLite's words.
pub fn copy_failure(location: &str, refused: bool, words: &str) -> (out: Error)
    ensures
        out@ == (if refused {
            ErrorView::AccessDenied(denied(location@))
        } else {
            ErrorView::Other(words@)
        }),
{
    if refused {
        Error::AccessDenied(denied_message(location))
    } else {
        Error::other(words)
    }
}

/// The files a snapshot is made of, beside the database itself.
pub fn with_suffix(path: &str, suffix: &str) -> (out: String)
    ensures
        out@ == path@ + suffix@,
{
    let mut out: String = path.to_owned();
    out.append(suffix);
    out
}

/// The highest rowid a query for it answers with, and none before there is a
/// message.
pub fn latest_rowid(found: Option<Option<i64>>) -> (out: i64)
    ensures
        out == (match found {
            Some(Some(rowid)) => rowid,
            _ => 0,
        }),
{
    match found {
        Some(Some(rowid)) => rowid,
        _ => 0,
    }
}

/// A daemon that cannot open its database always answers with the permission:
/// it never falls back on a copy, which would be frozen at the moment it was
/// taken.
pub proof fn the_daemon_never_reads_a_copy(location: Seq<char>, words: Seq<char>)
    ensures
        refusal(location, words, false) is Some,
        refusal(location, words, false)->0 is AccessDenied,
{
}

/// A path under a directory begins with the directory and ends with what is under it,
/// with a slash between the two.
pub proof fn a_path_is_under_its_directory(directory: Seq<char>, relative: Seq<char>)
    ensures
        directory.is_prefix_of(under(directory, relative)),
        relative.is_suffix_of(under(directory, relative)),
        directory.len() > 0 ==> under(directory, relative)[under(directory, relative).len()
            - relative.len() - 1] == '/',
        under(directory, relative).len() <= directory.len() + 1 + relative.len(),
{
    reveal_strlit("/");
    let path = under(directory, relative);
    assert(path.take(directory.len() as int) =~= directory);
    assert(path.skip(path.len() - relative.len()) =~= relative);
}

/// The database that is named is the one that is read: outright before by the environment,
/// and Messages' own only where neither names one.
pub proof fn a_named_database_is_the_one(
    over: Option<Seq<char>>,
    environment: Option<Seq<char>>,
    home: Seq<char>,
)
    ensures
        over is Some && over->0.len() > 0 ==> database(over, environment, home) == over->0,
        (over is None || over->0.len() == 0) && environment is Some && environment->0.len() > 0
            ==> database(over, environment, home) == environment->0,
        (over is None || over->0.len() == 0) && (environment is None || environment->0.len() == 0)
            ==> home.is_prefix_of(database(over, environment, home))
            && "Library/Messages/chat.db"@.is_suffix_of(database(over, environment, home)),
{
    a_path_is_under_its_directory(home, "Library/Messages/chat.db"@);
}

/// A reader is refused exactly where the failure speaks of a denial, and is told which
/// database it was; anything else is worth a copy. The daemon is told in its own words.
pub proof fn a_denial_says_what_was_denied(location: Seq<char>, words: Seq<char>)
    ensures
        refusal(location, words, true) is Some <==> text::contains(
            text::lowercase(words),
            "authorization denied"@,
        ) || text::contains(text::lowercase(words), "permission"@),
        refusal(location, words, true) matches Some(error) ==> (error matches
            ErrorView::AccessDenied(advice) && text::contains(advice, location)),
        refusal(location, words, false) matches Some(ErrorView::AccessDenied(advice))
            && DENIED@.is_prefix_of(advice) && (permission(words) || words.is_suffix_of(advice)),
{
    let advice = denied(location);
    let at = "cannot read "@.len() as int;
    assert(advice.subrange(at, at + location.len()) =~= location);
    assert(text::occurs_at(advice, location, at));
    let told = DENIED@ + "\n\n"@ + words;
    assert(told.take(DENIED@.len() as int) =~= DENIED@);
    assert(told.skip(told.len() - words.len()) =~= words);
}

} // verus!
