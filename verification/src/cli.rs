//! What `msg` makes of its arguments, and what it prints.
use vstd::prelude::*;

use crate::context::Context;
use crate::daemon::install::{Environment, Grant, Installed};
use crate::daemon::protocol::{AutomationReply, ContactsReply, ResolvedHandle, StatusReply};
use crate::db::{self, human_bytes};
use crate::text::{self, chars_of, count_of, decimal_of, digits_of, joined, same, strip_front};
use crate::{Error, ErrorView};

verus! {

/// A whole number as it is typed: digits, with a plus before them at most.
pub open spec fn unsigned(s: Seq<char>) -> Seq<char> {
    match text::stripped(s, "+"@) {
        Some(rest) => rest,
        None => s,
    }
}

/// A whole number above zero and up to `most`.
pub open spec fn counting(s: Seq<char>, most: nat) -> Option<nat> {
    let digits = unsigned(s);
    if text::all_digits(digits) && digits.len() > 0 && 0 < text::number(digits) <= most {
        Some(text::number(digits))
    } else {
        None
    }
}

/// A whole number above zero and up to `most`.
fn read_count(s: &str, most: u64) -> (out: Option<u64>)
    ensures
        out is Some <==> counting(s@, most as nat) is Some,
        out is Some ==> out->0 == counting(s@, most as nat)->0,
{
    let chars = chars_of(s);
    let digits = match strip_front(&chars, "+") {
        Some(rest) => rest,
        None => chars,
    };
    if digits.len() == 0 || !text::is_digits(&digits) {
        return None;
    }
    let mut total: u64 = 0;
    let mut over = false;
    assert(digits@.take(0) =~= Seq::<char>::empty());
    for i in 0..digits.len()
        invariant
            digits@ == unsigned(s@),
            text::all_digits(digits@),
            total <= most,
            !over ==> total == text::number(digits@.take(i as int)),
            over ==> text::number(digits@.take(i as int)) > most,
    {
        proof {
            let next = digits@.take(i + 1);
            assert(next.drop_last() =~= digits@.take(i as int));
            assert(next.last() == digits@[i as int]);
            assert(text::ascii_digit(digits@[i as int]));
        }
        let digit: u64 = (digits[i] as u32 - 48) as u64;
        if !over {
            let wide: u128 = total as u128 * 10 + digit as u128;
            if wide > most as u128 {
                over = true;
            } else {
                total = wide as u64;
            }
        }
    }
    assert(digits@.take(digits@.len() as int) =~= digits@);
    if over || total == 0 {
        None
    } else {
        Some(total)
    }
}

/// What to say of a count that is none.
fn not_a_count(value: &str) -> (out: String)
    ensures
        out@ == "expected a positive integer, got "@ + value@,
{
    let mut out: String = "expected a positive integer, got ".to_owned();
    out.append(value);
    out
}

/// A limit: a whole number above zero.
pub fn positive(value: &str) -> (out: Result<i64, String>)
    ensures
        out is Ok <==> counting(value@, i64::MAX as nat) is Some,
        out matches Ok(count) ==> count == counting(value@, i64::MAX as nat)->0,
        out matches Err(words) ==> words@ == "expected a positive integer, got "@ + value@,
{
    match read_count(value, i64::MAX as u64) {
        Some(count) => Ok(count as i64),
        None => Err(not_a_count(value)),
    }
}

/// A number of seconds: a whole number above zero.
pub fn positive_seconds(value: &str) -> (out: Result<u64, String>)
    ensures
        out is Ok <==> counting(value@, u64::MAX as nat) is Some,
        out matches Ok(count) ==> count == counting(value@, u64::MAX as nat)->0,
        out matches Err(words) ==> words@ == "expected a positive integer, got "@ + value@,
{
    match read_count(value, u64::MAX) {
        Some(count) => Ok(count),
        None => Err(not_a_count(value)),
    }
}

/// How a failure exits: 2 for "the data is there, the grant is not", 3 for a name
/// that reaches more than one person, and 1 for anything else.
pub open spec fn exits(error: ErrorView) -> u8 {
    match error {
        ErrorView::AccessDenied(_) => 2,
        ErrorView::Ambiguous(_) => 3,
        ErrorView::SendDisabled(_) => 1,
        ErrorView::Other(_) => 1,
    }
}

/// How a failure exits.
pub fn status_for(error: &Error) -> (out: u8)
    ensures
        out == exits(error@),
{
    match error {
        Error::AccessDenied(_) => 2,
        Error::Ambiguous(_) => 3,
        Error::SendDisabled(_) => 1,
        Error::Other(_) => 1,
    }
}

/// How arguments that cannot be read exit: never as a missing grant would, and
/// asking for help is no failure.
pub fn usage_status(is_failure: bool) -> (out: u8)
    ensures
        out == (if is_failure {
            1u8
        } else {
            0
        }),
        out != 2,
{
    if is_failure {
        1
    } else {
        0
    }
}

/// How much context is asked for: each side by its own flag, else by the one for
/// both. An explicit zero beats the shorthand.
pub fn widths(before: Option<i64>, after: Option<i64>, both: Option<i64>) -> (out: Context)
    ensures
        out.before == (match (before, both) {
            (Some(n), _) => n,
            (None, Some(n)) => n,
            (None, None) => 0,
        }),
        out.after == (match (after, both) {
            (Some(n), _) => n,
            (None, Some(n)) => n,
            (None, None) => 0,
        }),
{
    let shared: i64 = match both {
        Some(n) => n,
        None => 0,
    };
    Context {
        before: match before {
            Some(n) => n,
            None => shared,
        },
        after: match after {
            Some(n) => n,
            None => shared,
        },
    }
}

/// A conversation, under its name.
pub fn read_report(name: &str, transcript: &str) -> (out: String)
    ensures
        out@ == name@ + "\n\n"@ + transcript@,
{
    let mut out: String = name.to_owned();
    out.append("\n\n");
    out.append(transcript);
    out
}

/// Somebody's name on a line: both names where a nickname displaced one.
pub open spec fn composed(name: Option<Seq<char>>, filed_as: Option<Seq<char>>) -> Seq<char> {
    match (name, filed_as) {
        (Some(name), Some(filed)) => name + " ("@ + filed + ")"@,
        (Some(name), None) => name,
        (None, _) => "(unknown)"@,
    }
}

/// One line of a lookup.
pub open spec fn lookup_line(resolved: ResolvedHandle) -> Seq<char> {
    resolved.handle@ + "\t"@ + composed(text::maybe(resolved.name), text::maybe(resolved.filed_as))
        + "\n"@
}

/// The lines of a lookup.
pub open spec fn lookup_lines(rows: Seq<ResolvedHandle>) -> Seq<char>
    decreases rows.len(),
{
    if rows.len() == 0 {
        Seq::<char>::empty()
    } else {
        lookup_lines(rows.drop_last()) + lookup_line(rows.last())
    }
}

/// What a lookup prints: who each address is, or how many are known where none
/// was asked about.
pub fn contacts_report(reply: &ContactsReply, asked: bool) -> (out: String)
    ensures
        !asked ==> out@ == text::digits(reply.size as nat) + " handles known from Contacts\n"@,
        asked ==> out@ == lookup_lines(reply.resolved@),
{
    if !asked {
        let mut out: String = count_of(reply.size);
        out.append(" handles known from Contacts\n");
        return out;
    }
    let mut out: String = String::new();
    for i in 0..reply.resolved.len()
        invariant
            out@ == lookup_lines(reply.resolved@.take(i as int)),
    {
        let row = &reply.resolved[i];
        let ghost before = out@;
        proof {
            assert(reply.resolved@.take(i + 1).drop_last() =~= reply.resolved@.take(i as int));
            assert(reply.resolved@.take(i + 1).last() == *row);
        }
        let mut line: String = row.handle.clone();
        line.append("\t");
        match (&row.name, &row.filed_as) {
            (Some(name), Some(filed)) => {
                let mut both: String = name.clone();
                both.append(" (");
                both.append(filed.as_str());
                both.append(")");
                line.append(both.as_str());
            },
            (Some(name), None) => line.append(name.as_str()),
            (None, _) => line.append("(unknown)"),
        }
        line.append("\n");
        assert(line@ == lookup_line(*row));
        out.append(line.as_str());
    }
    assert(reply.resolved@.take(reply.resolved@.len() as int) =~= reply.resolved@);
    out
}

/// Where an attachment went, and how large it is.
pub fn saved_report(path: &str, bytes: i64) -> (out: String)
    ensures
        out@ == path@ + " ("@ + db::readable(bytes as int) + ")\n"@,
{
    let mut out: String = path.to_owned();
    out.append(" (");
    out.append(human_bytes(bytes).as_str());
    out.append(")\n");
    out
}

/// What is to be sent: the text, and what to call it in a confirmation.
#[derive(Debug)]
pub struct Outgoing {
    pub text: String,
    pub what: String,
}

/// What is to be sent: the words given, or a file in their place.
pub fn outgoing(words: &[String], file: Option<&str>) -> (out: Result<Outgoing, Error>)
    ensures
        out is Ok <==> file is Some || text::join(text::all_of(words@), " "@).len() > 0,
        out matches Ok(sent) ==> {
            &&& sent.text@ == text::join(text::all_of(words@), " "@)
            &&& sent.what@ == (match file {
                Some(path) => path@,
                None => sent.text@,
            })
        },
        out matches Err(error) ==> error@ == ErrorView::Other(
            "nothing to send, provide message text or --file"@,
        ),
{
    let text: String = joined(words, " ");
    match file {
        Some(path) => Ok(Outgoing { text, what: path.to_owned() }),
        None => if text.as_str().is_empty() {
            Err(Error::other("nothing to send, provide message text or --file"))
        } else {
            let what: String = text.clone();
            Ok(Outgoing { text, what })
        },
    }
}

/// What would be sent, and where. Unconditional, so the disabled state stays
/// inspectable.
pub fn dry_run_report(target: &str, what: &str) -> (out: String)
    ensures
        out@ == "would send to "@ + target@ + ": "@ + what@ + "\n"@,
{
    let mut out: String = "would send to ".to_owned();
    out.append(target);
    out.append(": ");
    out.append(what);
    out.append("\n");
    out
}

/// What was sent, and where.
pub fn sent_report(target: &str, what: &str) -> (out: String)
    ensures
        out@ == "sent to "@ + target@ + ": "@ + what@ + "\n"@,
{
    let mut out: String = "sent to ".to_owned();
    out.append(target);
    out.append(": ");
    out.append(what);
    out.append("\n");
    out
}

/// What is left to do for a grant.
pub open spec fn grant_words(grant: Grant) -> Seq<char> {
    match grant {
        Grant::Held { message_count } =>
        "\nNothing left to do: msgd is already reading the database, "@ + text::decimal(
            message_count as int,
        )
            + " messages in.\nIts Full Disk Access grant is keyed to the bundle identifier and the\ncertificate, not to this build, so it survived the reinstall.\n"@,
        Grant::Missing =>
        "\nOne step left, and it cannot be automated: switch on msgd under\nPrivacy & Security > Full Disk Access, which is now open.\n\nIt is listed there because it has already tried to read and been refused —\na denied access is what creates the entry — so give it a minute if it is\nnot there yet, then run `msg daemon status`.\n"@,
        Grant::Unknown =>
        "\nmsgd did not answer, so whether it can read is unknown. Opening Privacy &\nSecurity > Full Disk Access in case the grant is what it is waiting for;\n`msg daemon status` will say once it is up.\n"@,
    }
}

/// What is left to do for a grant.
fn grant_report(grant: Grant) -> (out: String)
    ensures
        out@ == grant_words(grant),
{
    match grant {
        Grant::Held { message_count } => {
            let mut out: String =
                "\nNothing left to do: msgd is already reading the database, ".to_owned();
            out.append(decimal_of(message_count).as_str());
            out.append(
                " messages in.\nIts Full Disk Access grant is keyed to the bundle identifier and the\ncertificate, not to this build, so it survived the reinstall.\n",
            );
            out
        },
        Grant::Missing =>
        "\nOne step left, and it cannot be automated: switch on msgd under\nPrivacy & Security > Full Disk Access, which is now open.\n\nIt is listed there because it has already tried to read and been refused —\na denied access is what creates the entry — so give it a minute if it is\nnot there yet, then run `msg daemon status`.\n".to_owned(),
        Grant::Unknown =>
        "\nmsgd did not answer, so whether it can read is unknown. Opening Privacy &\nSecurity > Full Disk Access in case the grant is what it is waiting for;\n`msg daemon status` will say once it is up.\n".to_owned(),
    }
}

/// What was carried into the job, a setting a line.
pub open spec fn carried_lines(entries: Seq<(Seq<char>, Seq<char>)>) -> Seq<char>
    decreases entries.len(),
{
    if entries.len() == 0 {
        Seq::<char>::empty()
    } else {
        carried_lines(entries.drop_last()) + "carried "@ + entries.last().0 + "="@
            + entries.last().1 + "\n"@
    }
}

/// What was carried into the job.
fn carried_report(environment: &Environment) -> (out: String)
    ensures
        out@ == carried_lines(environment@),
{
    let ghost all = environment@;
    let mut out: String = String::new();
    for i in 0..environment.entries.len()
        invariant
            all == environment@,
            out@ == carried_lines(all.take(i as int)),
    {
        let entry = &environment.entries[i];
        proof {
            assert(all.take(i + 1).drop_last() =~= all.take(i as int));
            assert(all[i as int] == (entry.0@, entry.1@));
        }
        out.append("carried ");
        out.append(entry.0.as_str());
        out.append("=");
        out.append(entry.1.as_str());
        out.append("\n");
    }
    assert(all.take(all.len() as int) =~= all);
    out
}

/// A text, if there is a reason for it.
pub open spec fn reasoned(reason: bool, text: Seq<char>) -> Seq<char> {
    if reason {
        text
    } else {
        Seq::<char>::empty()
    }
}

/// What is said of an unbundled daemon that was replaced.
pub const REPLACED: &'static str = "
This replaced an unbundled daemon, whose own entries are still listed and
now point at nothing. Remove them with the \"-\" button under Full Disk
Access; the Automation one cannot be removed singly, only by
`tccutil reset AppleEvents`, which clears every app on the machine.
";

/// What is said of a build whose grant will not survive the next one.
pub const AD_HOC: &'static str = "
This build is signed ad-hoc, so the grant is pinned to its hash and the
next rebuild will need granting again. Rebuild without MSG_SIGN_IDENTITY
to sign with a stable certificate instead.
";

/// Write a text behind another, if there is a reason for it.
fn append_if(out: &mut String, reason: bool, text: &str)
    ensures
        final(out)@ == old(out)@ + reasoned(reason, text@),
{
    let ghost was = out@;
    if reason {
        out.append(text);
    } else {
        assert(was + Seq::<char>::empty() =~= was);
    }
}

/// What an install prints as soon as the daemon is started, before it is asked
/// whether it can read.
pub fn installed_report(installed: &Installed, signature: &str) -> (out: String)
    ensures
        out@ == "installed "@ + installed.bundle@ + " (signed "@ + signature@ + ")\nstarted "@
            + installed.plist@ + "\n"@ + carried_lines(installed.environment@),
{
    let mut out: String = "installed ".to_owned();
    out.append(installed.bundle.as_str());
    out.append(" (signed ");
    out.append(signature);
    out.append(")\nstarted ");
    out.append(installed.plist.as_str());
    out.append("\n");
    out.append(carried_report(&installed.environment).as_str());
    out
}

/// What an install prints once the daemon was asked whether it can read: what is
/// left to do.
pub fn install_report(installed: &Installed, signature: &str, grant: Grant) -> (out: String)
    ensures
        out@ == grant_words(grant) + reasoned(installed.replaced_legacy, REPLACED@) + reasoned(
            signature@ == "ad-hoc"@,
            AD_HOC@,
        ),
{
    let mut out: String = grant_report(grant);
    append_if(&mut out, installed.replaced_legacy, REPLACED);
    append_if(&mut out, same(signature, "ad-hoc"), AD_HOC);
    out
}

/// What an uninstall leaves behind.
pub const OUTLIVES: &'static str = "
The grants outlive the bundle, and both are keyed to its identifier:

  tccutil reset SystemPolicyAllFiles com.ninjudd.msgd
  tccutil reset AppleEvents com.ninjudd.msgd

So does the certificate the build signed it with:

  security delete-identity -c \"msg dev\"
";

/// What was removed, a path a line.
pub open spec fn removed_lines(paths: Seq<Seq<char>>) -> Seq<char>
    decreases paths.len(),
{
    if paths.len() == 0 {
        Seq::<char>::empty()
    } else {
        removed_lines(paths.drop_last()) + "removed "@ + paths.last() + "\n"@
    }
}

/// What an uninstall prints.
pub fn uninstall_report(removed: &[String]) -> (out: String)
    ensures
        out@ == removed_lines(text::all_of(removed@)) + reasoned(
            removed@.len() == 0,
            "nothing to remove\n"@,
        ) + OUTLIVES@,
{
    let ghost all = text::all_of(removed@);
    let mut out: String = String::new();
    for i in 0..removed.len()
        invariant
            all == text::all_of(removed@),
            out@ == removed_lines(all.take(i as int)),
    {
        proof {
            assert(all.take(i + 1).drop_last() =~= all.take(i as int));
            assert(all.take(i + 1).last() == removed@[i as int]@);
        }
        out.append("removed ");
        out.append(removed[i].as_str());
        out.append("\n");
    }
    assert(all.take(all.len() as int) =~= all);
    append_if(&mut out, removed.len() == 0, "nothing to remove\n");
    out.append(OUTLIVES);
    out
}

/// What is said when both gates are open.
pub const BOTH_OPEN: &'static str = "
Both gates are open, so `msg send` will reach real people. Close either:

  msg daemon automation --settings   switch msgd off under Automation
  tccutil reset AppleEvents com.ninjudd.msgd
  send = false                       in ~/.config/msg/config.toml
";

/// What is said of both gates.
pub open spec fn gates(allowed: bool, detail: Seq<char>, enabled: bool) -> Seq<char> {
    "automation  "@ + (if allowed {
        "allowed"@
    } else {
        "refused"@
    }) + "\nconfig      send = "@ + (if enabled {
        "true"@
    } else {
        "false"@
    }) + "\n"@ + reasoned(!allowed, "\n"@ + detail + "\n"@) + reasoned(
        allowed && enabled,
        BOTH_OPEN@,
    ) + reasoned(
        allowed && !enabled,
        "\nmacOS would allow a send; the config is what is refusing it.\n"@,
    )
}

/// What is said of both gates.
pub fn automation_report(reply: &AutomationReply) -> (out: String)
    ensures
        out@ == gates(reply.allowed, reply.detail@, reply.config_enabled),
{
    let mut out: String = "automation  ".to_owned();
    if reply.allowed {
        out.append("allowed");
    } else {
        out.append("refused");
    }
    out.append("\nconfig      send = ");
    if reply.config_enabled {
        out.append("true");
    } else {
        out.append("false");
    }
    out.append("\n");
    let mut detail: String = "\n".to_owned();
    detail.append(reply.detail.as_str());
    detail.append("\n");
    append_if(&mut out, !reply.allowed, detail.as_str());
    append_if(&mut out, reply.allowed && reply.config_enabled, BOTH_OPEN);
    append_if(
        &mut out,
        reply.allowed && !reply.config_enabled,
        "\nmacOS would allow a send; the config is what is refusing it.\n",
    );
    out
}

/// Where the parts of an installed daemon are.
#[derive(Debug)]
pub struct Places {
    pub plist: String,
    pub bundle: String,
    pub socket: String,
    pub log: String,
}

/// A problem with Contacts, a line each.
pub open spec fn problem_lines(problems: Seq<Seq<char>>) -> Seq<char>
    decreases problems.len(),
{
    if problems.len() == 0 {
        Seq::<char>::empty()
    } else {
        problem_lines(problems.drop_last()) + "           "@ + problems.last() + "\n"@
    }
}

/// What a daemon that answered says of itself.
pub open spec fn answered_lines(status: StatusReply) -> Seq<char> {
    "version    "@ + status.version@ + " (protocol "@ + text::digits(status.protocol as nat)
        + "), pid "@ + text::digits(status.pid as nat) + ", up "@ + text::digits(
        status.uptime_seconds as nat,
    ) + "s\ndatabase   "@ + status.database@ + "\nmessages   "@ + text::decimal(
        status.message_count as int,
    ) + "\ncontacts   "@ + text::digits(status.contact_count as nat) + " handles\n"@
        + problem_lines(text::all_of(status.contact_problems@)) + "watchers   "@ + text::digits(
        status.watchers as nat,
    ) + "\n"@
}

/// What is said of how the daemon is doing.
pub open spec fn status_lines(
    loaded: bool,
    places: Places,
    status: Option<StatusReply>,
) -> Seq<char> {
    "agent      "@ + (if loaded {
        "loaded"@
    } else {
        "not loaded"@
    }) + " ("@ + places.plist@ + ")\nbundle     "@ + places.bundle@ + "\nsocket     "@
        + places.socket@ + reasoned(status is None, " (not listening)"@) + "\nlog        "@
        + places.log@ + "\n"@ + (match status {
        Some(status) => answered_lines(status),
        None => Seq::<char>::empty(),
    })
}

/// What a daemon that answered says of itself.
fn answered_report(status: &StatusReply) -> (out: String)
    ensures
        out@ == answered_lines(*status),
{
    let ghost problems = text::all_of(status.contact_problems@);
    let mut listed: String = String::new();
    for i in 0..status.contact_problems.len()
        invariant
            problems == text::all_of(status.contact_problems@),
            listed@ == problem_lines(problems.take(i as int)),
    {
        proof {
            assert(problems.take(i + 1).drop_last() =~= problems.take(i as int));
            assert(problems.take(i + 1).last() == status.contact_problems@[i as int]@);
        }
        listed.append("           ");
        listed.append(status.contact_problems[i].as_str());
        listed.append("\n");
    }
    assert(problems.take(problems.len() as int) =~= problems);
    let mut out: String = "version    ".to_owned();
    out.append(status.version.as_str());
    out.append(" (protocol ");
    out.append(digits_of(status.protocol as u64).as_str());
    out.append("), pid ");
    out.append(digits_of(status.pid as u64).as_str());
    out.append(", up ");
    out.append(digits_of(status.uptime_seconds).as_str());
    out.append("s\ndatabase   ");
    out.append(status.database.as_str());
    out.append("\nmessages   ");
    out.append(decimal_of(status.message_count).as_str());
    out.append("\ncontacts   ");
    out.append(count_of(status.contact_count).as_str());
    out.append(" handles\n");
    out.append(listed.as_str());
    out.append("watchers   ");
    out.append(count_of(status.watchers).as_str());
    out.append("\n");
    out
}

/// What is said of how the daemon is doing.
pub fn status_report(loaded: bool, places: &Places, status: &Option<StatusReply>) -> (out: String)
    ensures
        out@ == status_lines(loaded, *places, *status),
{
    let mut out: String = "agent      ".to_owned();
    if loaded {
        out.append("loaded");
    } else {
        out.append("not loaded");
    }
    out.append(" (");
    out.append(places.plist.as_str());
    out.append(")\nbundle     ");
    out.append(places.bundle.as_str());
    out.append("\nsocket     ");
    out.append(places.socket.as_str());
    append_if(&mut out, status.is_none(), " (not listening)");
    out.append("\nlog        ");
    out.append(places.log.as_str());
    out.append("\n");
    if let Some(status) = status {
        out.append(answered_report(status).as_str());
    } else {
        assert(out@ + Seq::<char>::empty() =~= out@);
    }
    out
}

/// A mistyped flag never claims what a missing grant does.
pub proof fn only_a_denial_exits_as_one(error: ErrorView)
    ensures
        exits(error) == 2 <==> error is AccessDenied,
        exits(error) != 0,
{
}

/// A count above nought is read as itself, with a plus before it or without, as long as it
/// is no more than the most there may be; nought is none.
pub proof fn a_count_is_read_as_itself(n: nat, most: nat)
    ensures
        0 < n <= most ==> counting(text::digits(n), most) == Some(n),
        0 < n <= most ==> counting("+"@ + text::digits(n), most) == Some(n),
        n == 0 || n > most ==> counting(text::digits(n), most) is None,
        counting(Seq::empty(), most) is None,
{
    reveal_strlit("+");
    let written = text::digits(n);
    text::a_number_reads_back(n);
    assert(text::ascii_digit(written[0]));
    assert(!"+"@.is_prefix_of(written)) by {
        if "+"@.is_prefix_of(written) {
            assert(written.subrange(0, 1)[0] == written[0]);
            assert("+"@[0] == '+');
        }
    }
    let signed = "+"@ + written;
    assert("+"@.is_prefix_of(signed)) by {
        assert(signed.take(1) =~= "+"@);
    }
    assert(signed.skip(1) =~= written);
}

/// Each failure exits as its own kind does.
pub proof fn each_failure_exits_as_its_kind(error: ErrorView)
    ensures
        exits(error) == 2 <==> error is AccessDenied,
        exits(error) == 3 <==> error is Ambiguous,
        exits(error) == 1 <==> error is SendDisabled || error is Other,
{
}

/// Somebody is told by the name they are shown under, with the one they are filed under
/// behind it where that is another.
pub proof fn a_lookup_tells_both_names(name: Seq<char>, filed: Seq<char>)
    ensures
        name.is_prefix_of(composed(Some(name), Some(filed))),
        ("("@ + filed + ")"@).is_suffix_of(composed(Some(name), Some(filed))),
        composed(Some(name), None) == name,
        composed(None, Some(filed)) == composed(None, None),
{
    reveal_strlit(" (");
    reveal_strlit("(");
    let all = composed(Some(name), Some(filed));
    let end = "("@ + filed + ")"@;
    assert(all.take(name.len() as int) =~= name);
    assert(all.skip(all.len() - end.len()) =~= end);
}

/// Every row of a lookup has its line: the address, and who has it.
pub proof fn every_lookup_has_its_line(rows: Seq<ResolvedHandle>, i: int)
    requires
        0 <= i < rows.len(),
    ensures
        text::contains(
            lookup_lines(rows),
            rows[i].handle@ + "\t"@ + composed(
                text::maybe(rows[i].name),
                text::maybe(rows[i].filed_as),
            ) + "\n"@,
        ),
    decreases rows.len(),
{
    let rest = rows.drop_last();
    let before = lookup_lines(rest);
    let last = lookup_line(rows.last());
    let line = lookup_line(rows[i]);
    if i == rows.len() - 1 {
        assert(before + last =~= before + line + Seq::<char>::empty());
        text::a_piece_is_held(before, line, Seq::empty());
    } else {
        assert(rest[i] == rows[i]);
        every_lookup_has_its_line(rest, i);
        assert(before + last =~= Seq::<char>::empty() + before + last);
        text::a_piece_is_held(Seq::empty(), before, last);
        text::holding_carries(before + last, before, line);
    }
}

/// Everything that was carried into the job is listed, under its name and with its value.
pub proof fn everything_carried_is_listed(entries: Seq<(Seq<char>, Seq<char>)>, i: int)
    requires
        0 <= i < entries.len(),
    ensures
        text::contains(
            carried_lines(entries),
            "carried "@ + entries[i].0 + "="@ + entries[i].1 + "\n"@,
        ),
    decreases entries.len(),
{
    let rest = entries.drop_last();
    let before = carried_lines(rest);
    let line = "carried "@ + entries[i].0 + "="@ + entries[i].1 + "\n"@;
    let all = carried_lines(entries);
    let last = "carried "@ + entries.last().0 + "="@ + entries.last().1 + "\n"@;
    assert(all =~= before + last);
    if i == entries.len() - 1 {
        assert(all =~= before + line + Seq::<char>::empty());
        text::a_piece_is_held(before, line, Seq::empty());
    } else {
        assert(rest[i] == entries[i]);
        everything_carried_is_listed(rest, i);
        assert(all =~= Seq::<char>::empty() + before + last);
        text::a_piece_is_held(Seq::empty(), before, last);
        text::holding_carries(all, before, line);
    }
}

/// Everything that was removed is listed.
pub proof fn everything_removed_is_listed(paths: Seq<Seq<char>>, i: int)
    requires
        0 <= i < paths.len(),
    ensures
        text::contains(removed_lines(paths), "removed "@ + paths[i] + "\n"@),
    decreases paths.len(),
{
    let rest = paths.drop_last();
    let before = removed_lines(rest);
    let line = "removed "@ + paths[i] + "\n"@;
    let all = removed_lines(paths);
    let last = "removed "@ + paths.last() + "\n"@;
    assert(all =~= before + last);
    if i == paths.len() - 1 {
        assert(all =~= before + line + Seq::<char>::empty());
        text::a_piece_is_held(before, line, Seq::empty());
    } else {
        assert(rest[i] == paths[i]);
        everything_removed_is_listed(rest, i);
        assert(all =~= Seq::<char>::empty() + before + last);
        text::a_piece_is_held(Seq::empty(), before, last);
        text::holding_carries(all, before, line);
    }
}

/// Both gates are told as they are: what macOS allows and what the config says, what was
/// refused in its own words, and a warning exactly where both are open.
pub proof fn both_gates_are_told(allowed: bool, detail: Seq<char>, enabled: bool)
    ensures
        allowed ==> ("automation  "@ + "allowed"@ + "\nconfig      send = "@).is_prefix_of(
            gates(allowed, detail, enabled),
        ),
        !allowed ==> ("automation  "@ + "refused"@ + "\nconfig      send = "@).is_prefix_of(
            gates(allowed, detail, enabled),
        ),
        enabled ==> text::contains(
            gates(allowed, detail, enabled),
            "\nconfig      send = "@ + "true"@ + "\n"@,
        ),
        !enabled ==> text::contains(
            gates(allowed, detail, enabled),
            "\nconfig      send = "@ + "false"@ + "\n"@,
        ),
        !allowed ==> (detail + "\n"@).is_suffix_of(gates(allowed, detail, enabled)),
        allowed && enabled ==> BOTH_OPEN@.is_suffix_of(gates(allowed, detail, enabled)),
{
    let all = gates(allowed, detail, enabled);
    let first = if allowed {
        "allowed"@
    } else {
        "refused"@
    };
    let second = if enabled {
        "true"@
    } else {
        "false"@
    };
    let head = "automation  "@ + first;
    let line = "\nconfig      send = "@ + second + "\n"@;
    let a = reasoned(!allowed, "\n"@ + detail + "\n"@);
    let b = reasoned(allowed && enabled, BOTH_OPEN@);
    let c = reasoned(
        allowed && !enabled,
        "\nmacOS would allow a send; the config is what is refusing it.\n"@,
    );
    assert(all =~= head + line + (a + b + c));
    text::a_piece_is_held(head, line, a + b + c);
    let opening = head + "\nconfig      send = "@;
    assert(all.take(opening.len() as int) =~= opening);
    if !allowed {
        let end = detail + "\n"@;
        assert(all =~= head + line + "\n"@ + end);
        assert(all.skip(all.len() - end.len()) =~= end);
    }
    if allowed && enabled {
        assert(all =~= head + line + BOTH_OPEN@);
        assert(all.skip(all.len() - BOTH_OPEN@.len()) =~= BOTH_OPEN@);
    }
}

} // verus!
