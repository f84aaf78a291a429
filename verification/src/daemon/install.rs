//! Installing the daemon: a copied bundle, a launchd agent, and the one step that
//! cannot be automated.
//!
//! There is no way to grant Full Disk Access from a program, so the install ends
//! by telling the user what to switch on, and the daemon's first failed read is
//! what puts it in the list to be switched.
use vstd::prelude::*;

use crate::access::{self, path_under};
use crate::daemon::protocol::LABEL;
use crate::text::{
    self, chars_of, digits_of, joined, lines_of, opens_with, same, strip_front, text_has, text_of,
    trim_text, trimmed, words_of,
};
use crate::{Error, ErrorView};

verus! {

/// The installed bundle, in a home directory.
pub open spec fn bundle(home: Seq<char>) -> Seq<char> {
    access::under(home, ".local/libexec/msgd.app"@)
}

/// The installed bundle.
///
/// A bundle rather than a bare executable, because macOS keys a grant by bundle
/// identifier when it can resolve one and by path when it cannot, and a path-keyed
/// grant cannot be switched off.
pub fn bundle_path(home: &str) -> (out: String)
    ensures
        out@ == bundle(home@),
{
    path_under(home, ".local/libexec/msgd.app")
}

/// What launchd runs, inside the bundle.
pub open spec fn binary(home: Seq<char>) -> Seq<char> {
    access::under(bundle(home), "Contents/MacOS/msgd"@)
}

/// What launchd runs. macOS resolves it back to the bundle above it.
pub fn binary_path(home: &str) -> (out: String)
    ensures
        out@ == binary(home@),
{
    path_under(bundle_path(home).as_str(), "Contents/MacOS/msgd")
}

/// Where the daemon lived before it was bundled.
pub fn legacy_binary_path(home: &str) -> (out: String)
    ensures
        out@ == access::under(home@, ".local/libexec/msgd"@),
{
    path_under(home, ".local/libexec/msgd")
}

/// The agent launchd reads.
pub open spec fn agent(home: Seq<char>) -> Seq<char> {
    access::under(home, "Library/LaunchAgents/"@ + LABEL@ + ".plist"@)
}

/// The agent launchd reads.
pub fn plist_path(home: &str) -> (out: String)
    ensures
        out@ == agent(home@),
{
    let mut relative: String = "Library/LaunchAgents/".to_owned();
    relative.append(LABEL);
    relative.append(".plist");
    path_under(home, relative.as_str())
}

/// The daemon's log, in its state directory.
pub fn log_path(state: &str) -> (out: String)
    ensures
        out@ == access::under(state@, "msgd.log"@),
{
    path_under(state, "msgd.log")
}

/// Where the build leaves the signed bundle: in the directory of the real `msg`
/// binary, where that is known.
pub fn built_bundle(directory: Option<&str>) -> (out: String)
    ensures
        out@ == (match directory {
            Some(directory) => access::under(directory@, "msgd.app"@),
            None => "msgd.app"@,
        }),
{
    match directory {
        Some(directory) => path_under(directory, "msgd.app"),
        None => "msgd.app".to_owned(),
    }
}

/// A user's own launchd domain.
pub open spec fn domain_of(uid: u32) -> Seq<char> {
    "gui/"@ + text::digits(uid as nat)
}

/// A user's own launchd domain.
pub fn domain(uid: u32) -> (out: String)
    ensures
        out@ == domain_of(uid),
{
    let mut out: String = "gui/".to_owned();
    out.append(digits_of(uid as u64).as_str());
    out
}

/// The daemon as launchd names it.
pub fn service(uid: u32) -> (out: String)
    ensures
        out@ == domain_of(uid) + "/"@ + LABEL@,
{
    let mut out: String = domain(uid);
    out.append("/");
    out.append(LABEL);
    out
}

/// The settings the daemon reads for itself, in the order of their names.
///
/// A launchd job inherits nothing from the shell that installed it, so anything
/// set there has to be written into the agent or it silently does not apply.
pub open spec fn settings() -> Seq<Seq<char>> {
    seq!["MSG_CONFIG"@, "MSG_CONTACTS_SOURCE"@, "MSG_SOCKET"@, "MSG_STATE_DIR"@]
}

/// What is carried into the job from the installing shell, in the order of the
/// names.
#[derive(Debug)]
pub struct Environment {
    pub entries: Vec<(String, String)>,
}

impl View for Environment {
    type V = Seq<(Seq<char>, Seq<char>)>;

    open spec fn view(&self) -> Seq<(Seq<char>, Seq<char>)> {
        self.entries@.map_values(|entry: (String, String)| (entry.0@, entry.1@))
    }
}

/// What an environment holds under a name: the first of that name.
pub open spec fn held(entries: Seq<(Seq<char>, Seq<char>)>, name: Seq<char>) -> Option<Seq<char>>
    decreases entries.len(),
{
    if entries.len() == 0 {
        None
    } else if entries[0].0 == name {
        Some(entries[0].1)
    } else {
        held(entries.drop_first(), name)
    }
}

impl Environment {
    /// Nothing carried.
    pub fn new() -> (out: Self)
        ensures
            out@ == Seq::<(Seq<char>, Seq<char>)>::empty(),
    {
        let out = Environment { entries: Vec::new() };
        assert(out@ =~= Seq::<(Seq<char>, Seq<char>)>::empty());
        out
    }

    /// How many settings are carried.
    pub fn len(&self) -> (out: usize)
        ensures
            out == self@.len(),
    {
        self.entries.len()
    }

    /// Whether nothing is carried.
    pub fn is_empty(&self) -> (yes: bool)
        ensures
            yes == (self@.len() == 0),
    {
        self.entries.len() == 0
    }

    /// What a setting is carried as.
    pub fn get(&self, name: &str) -> (out: Option<&str>)
        ensures
            text::maybe_str(out) == held(self@, name@),
    {
        let ghost all = self@;
        assert(all.skip(0) =~= all);
        for i in 0..self.entries.len()
            invariant
                all == self@,
                held(all, name@) == held(all.skip(i as int), name@),
        {
            proof {
                assert(all[i as int] == (
                    self.entries@[i as int].0@,
                    self.entries@[i as int].1@,
                ));
                assert(all.skip(i as int).drop_first() =~= all.skip(i + 1));
            }
            if same(self.entries[i].0.as_str(), name) {
                return Some(self.entries[i].1.as_str());
            }
        }
        None
    }

    /// Whether a setting is carried.
    pub fn contains_key(&self, name: &str) -> (yes: bool)
        ensures
            yes == (held(self@, name@) is Some),
    {
        self.get(name).is_some()
    }

    /// Carry one more setting, if it was made.
    fn carry(&mut self, name: &str, value: Option<String>)
        ensures
            final(self)@ == old(self)@ + carried_one(name@, text::maybe(value)),
    {
        let ghost was = self@;
        if let Some(value) = value {
            if !value.as_str().is_empty() {
                let ghost added = value@;
                self.entries.push((name.to_owned(), value));
                assert(self@ =~= was.push((name@, added)));
            }
        }
        assert(self@ =~= was + carried_one(name@, text::maybe(value)));
    }
}

/// What is carried of one setting: it, if it was made.
pub open spec fn carried_one(name: Seq<char>, value: Option<Seq<char>>) -> Seq<
    (Seq<char>, Seq<char>),
> {
    match access::made(value) {
        Some(value) => seq![(name, value)],
        None => Seq::empty(),
    }
}

/// What is carried, by what each setting is.
pub open spec fn carried(values: Seq<Option<Seq<char>>>) -> Seq<(Seq<char>, Seq<char>)> {
    carried_one("MSG_CONFIG"@, values[0]) + carried_one("MSG_CONTACTS_SOURCE"@, values[1])
        + carried_one("MSG_SOCKET"@, values[2]) + carried_one("MSG_STATE_DIR"@, values[3])
}

/// What was read of each setting, by its characters.
pub open spec fn read_values(values: Seq<Option<String>>) -> Seq<Option<Seq<char>>> {
    values.map_values(|value: Option<String>| text::maybe(value))
}

/// The settings to carry into the job, out of an environment.
///
/// `MSG_DB` is deliberately not one of them. The command line answers it without
/// asking the daemon, so carrying it could only leave a daemon pinned to a fixture
/// that a later shell knows nothing about.
pub fn daemon_environment<F: Fn(&str) -> Option<String>>(read: F) -> (out: Environment)
    requires
        forall|name: &str| call_requires(read, (name,)),
    ensures
        exists|values: Seq<Option<String>>|
            {
                &&& values.len() == 4
                &&& call_ensures(read, ("MSG_CONFIG",), values[0])
                &&& call_ensures(read, ("MSG_CONTACTS_SOURCE",), values[1])
                &&& call_ensures(read, ("MSG_SOCKET",), values[2])
                &&& call_ensures(read, ("MSG_STATE_DIR",), values[3])
                &&& out@ == carried(#[trigger] read_values(values))
            },
{
    let config = read("MSG_CONFIG");
    let contacts = read("MSG_CONTACTS_SOURCE");
    let socket = read("MSG_SOCKET");
    let state = read("MSG_STATE_DIR");
    let ghost values = seq![config, contacts, socket, state];
    let ghost shown = read_values(values);
    let mut out = Environment::new();
    out.carry("MSG_CONFIG", config);
    out.carry("MSG_CONTACTS_SOURCE", contacts);
    out.carry("MSG_SOCKET", socket);
    out.carry("MSG_STATE_DIR", state);
    assert(out@ =~= carried(shown));
    out
}

/// Whatever the environment holds, only the daemon's own settings are carried,
/// and `MSG_DB` never is.
pub proof fn only_its_own_settings_are_carried(values: Seq<Option<Seq<char>>>, i: int)
    requires
        values.len() == 4,
        0 <= i < carried(values).len(),
    ensures
        settings().contains(carried(values)[i].0),
        carried(values)[i].0 != "MSG_DB"@,
        carried(values)[i].1.len() > 0,
{
    reveal_strlit("MSG_CONFIG");
    reveal_strlit("MSG_CONTACTS_SOURCE");
    reveal_strlit("MSG_SOCKET");
    reveal_strlit("MSG_STATE_DIR");
    reveal_strlit("MSG_DB");
    assert("MSG_CONFIG"@.len() != "MSG_DB"@.len());
    assert("MSG_CONTACTS_SOURCE"@.len() != "MSG_DB"@.len());
    assert("MSG_SOCKET"@.len() != "MSG_DB"@.len());
    assert("MSG_STATE_DIR"@.len() != "MSG_DB"@.len());
    assert(settings()[0] == "MSG_CONFIG"@);
    assert(settings()[1] == "MSG_CONTACTS_SOURCE"@);
    assert(settings()[2] == "MSG_SOCKET"@);
    assert(settings()[3] == "MSG_STATE_DIR"@);
}

/// A character as XML text spells it.
pub open spec fn escaped(c: char) -> Seq<char> {
    if c == '&' {
        "&amp;"@
    } else if c == '<' {
        "&lt;"@
    } else if c == '>' {
        "&gt;"@
    } else {
        seq![c]
    }
}

/// A text as XML spells it.
pub open spec fn xml(s: Seq<char>) -> Seq<char>
    decreases s.len(),
{
    if s.len() == 0 {
        Seq::empty()
    } else {
        xml(s.drop_last()) + escaped(s.last())
    }
}

/// A text as XML spells it.
pub fn xml_text(value: &str) -> (out: String)
    ensures
        out@ == xml(value@),
{
    let chars = chars_of(value);
    let mut out: String = String::new();
    for i in 0..chars.len()
        invariant
            chars@ == value@,
            out@ == xml(chars@.take(i as int)),
    {
        let ghost before = out@;
        proof {
            assert(chars@.take(i + 1).drop_last() =~= chars@.take(i as int));
        }
        if chars[i] == '&' {
            out.append("&amp;");
        } else if chars[i] == '<' {
            out.append("&lt;");
        } else if chars[i] == '>' {
            out.append("&gt;");
        } else {
            out.push(chars[i]);
            assert(out@ =~= before + seq![chars@[i as int]]);
        }
    }
    assert(chars@.take(chars@.len() as int) =~= chars@);
    out
}

/// No value can open or close an element: what is written of it holds neither
/// bracket.
pub proof fn a_value_cannot_be_markup(s: Seq<char>)
    ensures
        !xml(s).contains('<'),
        !xml(s).contains('>'),
    decreases s.len(),
{
    reveal_strlit("&amp;");
    reveal_strlit("&lt;");
    reveal_strlit("&gt;");
    if s.len() > 0 {
        a_value_cannot_be_markup(s.drop_last());
        let before = xml(s.drop_last());
        let out = xml(s);
        assert forall|i: int| 0 <= i < out.len() implies out[i] != '<' && out[i] != '>' by {
            if i < before.len() {
                assert(before.contains(before[i]));
            }
        }
    }
}

/// One setting, as the agent lists it.
pub open spec fn setting_line(entry: (Seq<char>, Seq<char>)) -> Seq<char> {
    "    <key>"@ + entry.0 + "</key><string>"@ + xml(entry.1) + "</string>"@
}

/// What the agent says of the environment: nothing where there is none.
pub open spec fn environment_block(entries: Seq<(Seq<char>, Seq<char>)>) -> Seq<char> {
    if entries.len() == 0 {
        Seq::empty()
    } else {
        "  <key>EnvironmentVariables</key>\n  <dict>\n"@ + text::join(
            entries.map_values(|entry: (Seq<char>, Seq<char>)| setting_line(entry)),
            "\n"@,
        ) + "\n  </dict>\n"@
    }
}

/// The agent launchd reads.
pub open spec fn agent_text(
    binary: Seq<char>,
    log: Seq<char>,
    entries: Seq<(Seq<char>, Seq<char>)>,
) -> Seq<char> {
    "<?xml version=\"1.0\" encoding=\"UTF-8\"?>\n<!DOCTYPE plist PUBLIC \"-//Apple//DTD PLIST 1.0//EN\" \"http://www.apple.com/DTDs/PropertyList-1.0.dtd\">\n<plist version=\"1.0\">\n<dict>\n  <key>Label</key><string>"@
        + LABEL@ + "</string>\n  <key>ProgramArguments</key>\n  <array>\n    <string>"@ + xml(
        binary,
    ) + "</string>\n  </array>\n"@ + environment_block(entries)
        + "  <key>RunAtLoad</key><true/>\n  <key>KeepAlive</key><true/>\n  <key>ProcessType</key><string>Background</string>\n  <key>StandardErrorPath</key><string>"@
        + xml(log) + "</string>\n</dict>\n</plist>\n"@
}

/// One setting, as the agent lists it.
fn line_of(name: &str, value: &str) -> (out: String)
    ensures
        out@ == setting_line((name@, value@)),
{
    let mut out: String = "    <key>".to_owned();
    out.append(name);
    out.append("</key><string>");
    out.append(xml_text(value).as_str());
    out.append("</string>");
    out
}

/// What the agent says of the environment.
fn block_of(environment: &Environment) -> (out: String)
    ensures
        out@ == environment_block(environment@),
{
    if environment.is_empty() {
        return String::new();
    }
    let ghost all = environment@;
    let ghost shown = all.map_values(|entry: (Seq<char>, Seq<char>)| setting_line(entry));
    let mut lines: Vec<String> = Vec::new();
    for i in 0..environment.entries.len()
        invariant
            all == environment@,
            shown == all.map_values(|entry: (Seq<char>, Seq<char>)| setting_line(entry)),
            lines@.len() == i,
            forall|j: int| 0 <= j < i ==> (#[trigger] lines@[j])@ == shown[j],
    {
        let entry = &environment.entries[i];
        assert(all[i as int] == (entry.0@, entry.1@));
        lines.push(line_of(entry.0.as_str(), entry.1.as_str()));
    }
    assert(text::all_of(lines@) =~= shown);
    let mut out: String = "  <key>EnvironmentVariables</key>\n  <dict>\n".to_owned();
    out.append(joined(&lines, "\n").as_str());
    out.append("\n  </dict>\n");
    out
}

/// The agent launchd reads. It is user-owned, which is safe only because the
/// daemon is a single executable application: pointing this elsewhere runs a
/// binary that holds no grant.
pub fn plist(binary: &str, log: &str, environment: &Environment) -> (out: String)
    ensures
        out@ == agent_text(binary@, log@, environment@),
{
    let mut out: String = "<?xml version=\"1.0\" encoding=\"UTF-8\"?>\n<!DOCTYPE plist PUBLIC \"-//Apple//DTD PLIST 1.0//EN\" \"http://www.apple.com/DTDs/PropertyList-1.0.dtd\">\n<plist version=\"1.0\">\n<dict>\n  <key>Label</key><string>".to_owned();
    out.append(LABEL);
    out.append("</string>\n  <key>ProgramArguments</key>\n  <array>\n    <string>");
    out.append(xml_text(binary).as_str());
    out.append("</string>\n  </array>\n");
    out.append(block_of(environment).as_str());
    out.append(
        "  <key>RunAtLoad</key><true/>\n  <key>KeepAlive</key><true/>\n  <key>ProcessType</key><string>Background</string>\n  <key>StandardErrorPath</key><string>",
    );
    out.append(xml_text(log).as_str());
    out.append("</string>\n</dict>\n</plist>\n");
    out
}

/// What an install left behind.
#[derive(Debug)]
pub struct Installed {
    pub bundle: String,
    pub binary: String,
    pub plist: String,
    pub socket: String,
    pub log: String,
    /// Whether an unbundled daemon from an older install was removed.
    pub replaced_legacy: bool,
    /// What was carried into the job from the installing shell's environment.
    pub environment: Environment,
}

/// What to say where there is no bundle to install.
pub fn no_bundle(source: &str) -> (out: Error)
    ensures
        out@ == ErrorView::Other(
            "no daemon bundle at "@ + source@ + "\nBuild it first with `./scripts/build.sh`."@,
        ),
{
    let mut message: String = "no daemon bundle at ".to_owned();
    message.append(source);
    message.append("\nBuild it first with `./scripts/build.sh`.");
    Error::Other(message)
}

/// What to say of a job that launchd would not start.
pub fn not_started(output: &str) -> (out: Error)
    ensures
        out@ == ErrorView::Other(
            "launchctl could not start "@ + LABEL@ + ": "@ + text::trim(output@),
        ),
{
    let mut message: String = "launchctl could not start ".to_owned();
    message.append(LABEL);
    message.append(": ");
    message.append(trim_text(output).as_str());
    Error::Other(message)
}

/// What an uninstall removes, in order: the agent, the bundle, an unbundled
/// daemon, and the socket.
pub fn uninstalled(home: &str, socket: &str) -> (out: Vec<String>)
    ensures
        text::all_of(out@) == seq![
            agent(home@),
            bundle(home@),
            access::under(home@, ".local/libexec/msgd"@),
            socket@,
        ],
{
    let mut out: Vec<String> = Vec::new();
    out.push(plist_path(home));
    out.push(bundle_path(home));
    out.push(legacy_binary_path(home));
    out.push(socket.to_owned());
    assert(text::all_of(out@) =~= seq![
        agent(home@),
        bundle(home@),
        access::under(home@, ".local/libexec/msgd"@),
        socket@,
    ]);
    out
}

/// A word that says a signature is ad-hoc.
pub open spec fn adhoc_word(word: Seq<char>) -> bool {
    "flags="@.is_prefix_of(word) && text::contains(word, "adhoc"@)
}

/// A line that says a signature is ad-hoc.
pub open spec fn adhoc_line(line: Seq<char>) -> bool {
    exists|i: int| 0 <= i < text::words(line).len() && adhoc_word(#[trigger] text::words(line)[i])
}

/// What the first line to name an authority names: the leaf, which is the
/// certificate the grant is anchored to.
pub open spec fn authority(lines: Seq<Seq<char>>) -> Option<Seq<char>>
    decreases lines.len(),
{
    if lines.len() == 0 {
        None
    } else {
        match authority(lines.drop_last()) {
            Some(name) => Some(name),
            None => match text::stripped(lines.last(), "Authority="@) {
                Some(name) => Some(text::trim(name)),
                None => None,
            },
        }
    }
}

/// An authority worth repeating. `(unavailable)` is codesign's placeholder for a
/// chain it could not build, and says less than "signed" does.
pub open spec fn telling(name: Option<Seq<char>>) -> bool {
    name is Some && name->0.len() > 0 && name->0 != "(unavailable)"@
}

/// How a bundle is signed, by what `codesign` printed.
pub open spec fn signature(printed: Seq<char>) -> Seq<char> {
    let lines = text::lines(printed);
    if exists|i: int| 0 <= i < lines.len() && adhoc_line(#[trigger] lines[i]) {
        "ad-hoc"@
    } else if telling(authority(lines)) {
        authority(lines)->0
    } else if exists|i: int|
        0 <= i < lines.len() && "Signature size="@.is_prefix_of(#[trigger] lines[i]) {
        "signed"@
    } else {
        "unsigned"@
    }
}

/// Whether a line says a signature is ad-hoc.
fn is_adhoc_line(line: &str) -> (yes: bool)
    ensures
        yes == adhoc_line(line@),
{
    let words = words_of(&chars_of(line));
    let ghost all = text::words(line@);
    let flags = chars_of("flags=");
    for i in 0..words.len()
        invariant
            text::all_of(words@) == all,
            all == text::words(line@),
            flags@ == "flags="@,
            forall|j: int| 0 <= j < i ==> !adhoc_word(#[trigger] all[j]),
    {
        assert(all[i as int] == words@[i as int]@);
        if opens_with(&chars_of(words[i].as_str()), &flags) && text_has(
            words[i].as_str(),
            "adhoc",
        ) {
            assert(adhoc_word(all[i as int]));
            return true;
        }
    }
    false
}

proof fn the_first_authority_stands(lines: Seq<Seq<char>>, n: int)
    requires
        0 <= n <= lines.len(),
        authority(lines.take(n)) is Some,
    ensures
        authority(lines) == authority(lines.take(n)),
    decreases lines.len(),
{
    if n == lines.len() {
        assert(lines.take(n) =~= lines);
    } else {
        assert(lines.drop_last().take(n) =~= lines.take(n));
        the_first_authority_stands(lines.drop_last(), n);
    }
}

/// The authority `codesign` names first.
fn authority_of(lines: &Vec<String>) -> (out: Option<String>)
    ensures
        text::maybe(out) == authority(text::all_of(lines@)),
{
    let ghost all = text::all_of(lines@);
    for i in 0..lines.len()
        invariant
            all == text::all_of(lines@),
            authority(all.take(i as int)) is None,
    {
        proof {
            assert(all.take(i + 1).drop_last() =~= all.take(i as int));
            assert(all.take(i + 1).last() == lines@[i as int]@);
        }
        if let Some(name) = strip_front(&chars_of(lines[i].as_str()), "Authority=") {
            let name = text_of(&trimmed(&name));
            proof {
                the_first_authority_stands(all, i + 1);
            }
            return Some(name);
        }
    }
    assert(all.take(all.len() as int) =~= all);
    None
}

/// How a bundle is signed, by what `codesign -dv --verbose=2` printed.
///
/// A self-signed certificate produces no `Authority` line, so the presence of a
/// signature is what distinguishes it from ad-hoc, and the field is
/// `Signature size=`.
pub fn describe_signature(printed: &str) -> (out: String)
    ensures
        out@ == signature(printed@),
{
    let lines = lines_of(printed);
    let ghost all = text::lines(printed@);
    for i in 0..lines.len()
        invariant
            text::all_of(lines@) == all,
            all == text::lines(printed@),
            forall|j: int| 0 <= j < i ==> !adhoc_line(#[trigger] all[j]),
    {
        assert(all[i as int] == lines@[i as int]@);
        if is_adhoc_line(lines[i].as_str()) {
            assert(adhoc_line(all[i as int]));
            return "ad-hoc".to_owned();
        }
    }
    if let Some(name) = authority_of(&lines) {
        if !name.as_str().is_empty() && !same(name.as_str(), "(unavailable)") {
            return name;
        }
    }
    let sized = chars_of("Signature size=");
    for i in 0..lines.len()
        invariant
            text::all_of(lines@) == all,
            all == text::lines(printed@),
            sized@ == "Signature size="@,
            forall|j: int| 0 <= j < all.len() ==> !adhoc_line(#[trigger] all[j]),
            !telling(authority(all)),
            forall|j: int| 0 <= j < i ==> !"Signature size="@.is_prefix_of(#[trigger] all[j]),
    {
        assert(all[i as int] == lines@[i as int]@);
        if opens_with(&chars_of(lines[i].as_str()), &sized) {
            assert("Signature size="@.is_prefix_of(all[i as int]));
            return "signed".to_owned();
        }
    }
    "unsigned".to_owned()
}

/// What the freshly installed daemon said when asked whether it can read.
#[derive(Debug, Clone, Copy, PartialEq, Eq, Structural)]
pub enum Grant {
    /// It read the database, so Full Disk Access is already held.
    Held { message_count: i64 },
    /// It answered, and was refused.
    Missing,
    /// It never answered, so nothing is known.
    Unknown,
}

impl Grant {
    /// Only a daemon known to be reading is left alone.
    ///
    /// Opening the pane needlessly is a window someone closes; not opening it when
    /// the grant is missing leaves a daemon that will never work and no sign why.
    pub fn needs_pane(self) -> (yes: bool)
        ensures
            yes == !(self is Held),
    {
        match self {
            Grant::Held { .. } => false,
            Grant::Missing => true,
            Grant::Unknown => true,
        }
    }
}

/// What came of asking a daemon how it is doing.
pub enum Probed {
    /// It answered, with this many messages.
    Answered(i64),
    /// It was refused the database.
    Refused,
    /// It is not listening yet.
    Silent,
    /// Something else went wrong.
    Failed,
}

/// What a probe shows of the grant, or `None` where it has to be asked again. A
/// daemon that is not listening yet is asked until the time runs out; anything
/// else that goes wrong is no evidence either way.
pub fn probe(probed: Probed, time_left: bool) -> (out: Option<Grant>)
    ensures
        out == (match probed {
            Probed::Answered(message_count) => Some(Grant::Held { message_count }),
            Probed::Refused => Some(Grant::Missing),
            Probed::Silent => if time_left {
                None
            } else {
                Some(Grant::Unknown)
            },
            Probed::Failed => Some(Grant::Unknown),
        }),
{
    match probed {
        Probed::Answered(message_count) => Some(Grant::Held { message_count }),
        Probed::Refused => Some(Grant::Missing),
        Probed::Silent => if time_left {
            None
        } else {
            Some(Grant::Unknown)
        },
        Probed::Failed => Some(Grant::Unknown),
    }
}

/// The pane that holds the switch for Full Disk Access.
pub fn open_full_disk_access() -> (out: &'static str)
    ensures
        out@
            == "x-apple.systempreferences:com.apple.preference.security?Privacy_AllFiles"@,
{
    "x-apple.systempreferences:com.apple.preference.security?Privacy_AllFiles"
}

/// The pane that holds the switch which decides whether the daemon may send.
pub fn open_automation() -> (out: &'static str)
    ensures
        out@
            == "x-apple.systempreferences:com.apple.preference.security?Privacy_Automation"@,
{
    "x-apple.systempreferences:com.apple.preference.security?Privacy_Automation"
}

/// What launchd runs is inside the bundle, the bundle inside the home directory, and the
/// agent is named after the label.
pub proof fn everything_is_installed_at_home(home: Seq<char>)
    ensures
        home.is_prefix_of(bundle(home)),
        bundle(home).is_prefix_of(binary(home)),
        home.is_prefix_of(agent(home)),
        ".app"@.is_suffix_of(bundle(home)),
        "/msgd"@.is_suffix_of(binary(home)),
        (LABEL@ + ".plist"@).is_suffix_of(agent(home)),
{
    reveal_strlit(".local/libexec/msgd.app");
    reveal_strlit(".app");
    reveal_strlit("Contents/MacOS/msgd");
    reveal_strlit("/msgd");
    access::a_path_is_under_its_directory(home, ".local/libexec/msgd.app"@);
    access::a_path_is_under_its_directory(bundle(home), "Contents/MacOS/msgd"@);
    let relative = "Library/LaunchAgents/"@ + LABEL@ + ".plist"@;
    access::a_path_is_under_its_directory(home, relative);
    let path = agent(home);
    let named = LABEL@ + ".plist"@;
    assert(relative.skip(relative.len() - named.len()) =~= named);
    let kept = path.skip(path.len() - relative.len());
    assert(kept =~= relative);
    assert(path.skip(path.len() - named.len()) =~= kept.skip(relative.len() - named.len()));
    let app = bundle(home);
    let end = ".local/libexec/msgd.app"@;
    assert(app.skip(app.len() - 4) =~= app.skip(app.len() - end.len()).skip(end.len() - 4));
    assert(end.skip(end.len() - 4) =~= ".app"@);
    let run = binary(home);
    let tail = "Contents/MacOS/msgd"@;
    assert(run.skip(run.len() - 5) =~= run.skip(run.len() - tail.len()).skip(tail.len() - 5));
    assert(tail.skip(tail.len() - 5) =~= "/msgd"@);
}

/// A setting that was made is carried under its own name with its own value, and one that
/// was not, or is empty, is not there.
pub proof fn every_setting_that_was_made_is_carried(values: Seq<Option<Seq<char>>>, k: int)
    requires
        values.len() == 4,
        0 <= k < 4,
    ensures
        values[k] is Some && values[k]->0.len() > 0 ==> carried(values).contains(
            (settings()[k], values[k]->0),
        ),
        values[k] is None || values[k]->0.len() == 0 ==> forall|i: int|
            0 <= i < carried(values).len() ==> (#[trigger] carried(values)[i]).0 != settings()[k],
{
    reveal_strlit("MSG_CONFIG");
    reveal_strlit("MSG_CONTACTS_SOURCE");
    reveal_strlit("MSG_SOCKET");
    reveal_strlit("MSG_STATE_DIR");
    assert("MSG_CONFIG"@.len() == 10);
    assert("MSG_SOCKET"@.len() == 10 && "MSG_SOCKET"@[4] == 'S');
    assert("MSG_CONFIG"@[4] == 'C');
    let a = carried_one("MSG_CONFIG"@, values[0]);
    let b = carried_one("MSG_CONTACTS_SOURCE"@, values[1]);
    let c = carried_one("MSG_SOCKET"@, values[2]);
    let d = carried_one("MSG_STATE_DIR"@, values[3]);
    let all = carried(values);
    let at = if k == 0 {
        0
    } else if k == 1 {
        a.len() as int
    } else if k == 2 {
        (a + b).len() as int
    } else {
        (a + b + c).len() as int
    };
    if values[k] is Some && values[k]->0.len() > 0 {
        assert(all[at] == (settings()[k], values[k]->0));
    } else {
        assert("MSG_CONTACTS_SOURCE"@.len() == 19 && "MSG_STATE_DIR"@.len() == 13);
        assert(settings()[0] == "MSG_CONFIG"@ && settings()[1] == "MSG_CONTACTS_SOURCE"@);
        assert(settings()[2] == "MSG_SOCKET"@ && settings()[3] == "MSG_STATE_DIR"@);
        assert forall|i: int| 0 <= i < all.len() implies (#[trigger] all[i]).0 != settings()[k] by {
            if i < a.len() {
                assert(all[i] == a[i]);
            } else if i < (a + b).len() {
                assert(all[i] == b[i - a.len()]);
            } else if i < (a + b + c).len() {
                assert(all[i] == c[i - (a + b).len()]);
            } else {
                assert(all[i] == d[i - (a + b + c).len()]);
            }
        }
    }
}

/// XML spells a text character by character: the ampersand and the brackets by name, and
/// every other as itself.
pub proof fn xml_spells_each_character(a: Seq<char>, c: char)
    ensures
        xml(a.push(c)) == xml(a) + (if c == '&' {
            "&amp;"@
        } else if c == '<' {
            "&lt;"@
        } else if c == '>' {
            "&gt;"@
        } else {
            seq![c]
        }),
        xml(Seq::empty()).len() == 0,
{
    assert(a.push(c).drop_last() =~= a);
}

/// The agent runs the binary it was made for, writes to the log it was given, and carries
/// every setting with its value.
pub proof fn an_agent_says_what_to_run(
    binary: Seq<char>,
    log: Seq<char>,
    entries: Seq<(Seq<char>, Seq<char>)>,
    i: int,
)
    ensures
        text::contains(agent_text(binary, log, entries), "<key>Label</key><string>"@ + LABEL@),
        text::contains(
            agent_text(binary, log, entries),
            "<key>ProgramArguments</key>\n  <array>\n    <string>"@ + xml(binary) + "</string>"@,
        ),
        text::contains(
            agent_text(binary, log, entries),
            "<key>StandardErrorPath</key><string>"@ + xml(log) + "</string>"@,
        ),
        0 <= i < entries.len() ==> text::contains(
            agent_text(binary, log, entries),
            "<key>"@ + entries[i].0 + "</key><string>"@ + xml(entries[i].1) + "</string>"@,
        ),
{
    let all = agent_text(binary, log, entries);
    let block = environment_block(entries);
    let front = "<?xml version=\"1.0\" encoding=\"UTF-8\"?>\n<!DOCTYPE plist PUBLIC \"-//Apple//DTD PLIST 1.0//EN\" \"http://www.apple.com/DTDs/PropertyList-1.0.dtd\">\n<plist version=\"1.0\">\n<dict>\n  <key>Label</key><string>"@;
    let open = "</string>\n  <key>ProgramArguments</key>\n  <array>\n    <string>"@;
    let close = "</string>\n  </array>\n"@;
    let keep = "  <key>RunAtLoad</key><true/>\n  <key>KeepAlive</key><true/>\n  <key>ProcessType</key><string>Background</string>\n  <key>StandardErrorPath</key><string>"@;
    let end = "</string>\n</dict>\n</plist>\n"@;
    a_label_is_named(front, LABEL@, open);
    it_runs_the_binary(open, xml(binary), close);
    it_writes_to_the_log(keep, xml(log), end);
    let first = front + LABEL@ + open;
    let second = open + xml(binary) + close;
    let third = keep + xml(log) + end;
    its_parts_are_held(front, LABEL@, open, xml(binary), close, block, keep, xml(log), end);
    text::holding_carries(all, first, "<key>Label</key><string>"@ + LABEL@);
    text::holding_carries(
        all,
        second,
        "<key>ProgramArguments</key>\n  <array>\n    <string>"@ + xml(binary) + "</string>"@,
    );
    text::holding_carries(
        all,
        third,
        "<key>StandardErrorPath</key><string>"@ + xml(log) + "</string>"@,
    );
    if 0 <= i < entries.len() {
        let lines = entries.map_values(|entry: (Seq<char>, Seq<char>)| setting_line(entry));
        let listed = text::join(lines, "\n"@);
        text::a_part_is_held(lines, "\n"@, i);
        text::a_piece_is_held(
            "  <key>EnvironmentVariables</key>\n  <dict>\n"@,
            listed,
            "\n  </dict>\n"@,
        );
        text::holding_carries(block, listed, lines[i]);
        text::holding_carries(all, block, lines[i]);
        let inner = "<key>"@ + entries[i].0 + "</key><string>"@ + xml(entries[i].1)
            + "</string>"@;
        reveal_strlit("    <key>");
        reveal_strlit("<key>");
        assert(lines[i] =~= seq![' ', ' ', ' ', ' '] + inner + Seq::<char>::empty());
        text::a_piece_is_held(seq![' ', ' ', ' ', ' '], inner, Seq::empty());
        text::holding_carries(all, lines[i], inner);
    }
}

proof fn its_parts_are_held(
    front: Seq<char>,
    label: Seq<char>,
    open: Seq<char>,
    binary: Seq<char>,
    close: Seq<char>,
    block: Seq<char>,
    keep: Seq<char>,
    log: Seq<char>,
    end: Seq<char>,
)
    ensures
        ({
            let all = front + label + open + binary + close + block + keep + log + end;
            &&& text::contains(all, front + label + open)
            &&& text::contains(all, open + binary + close)
            &&& text::contains(all, block)
            &&& text::contains(all, keep + log + end)
        }),
{
    let all = front + label + open + binary + close + block + keep + log + end;
    let head = front + label;
    let first = head + open;
    let before = first + binary + close;
    let third = keep + log + end;
    assert(all =~= before + block + third);
    text::a_piece_is_held(before, block, third);
    assert(before + block + third =~= Seq::<char>::empty() + first + (binary + close + block
        + third));
    text::a_piece_is_held(Seq::empty(), first, binary + close + block + third);
    assert(before =~= head + (open + binary + close));
    assert(before + block + third =~= head + (open + binary + close) + (block + third));
    text::a_piece_is_held(head, open + binary + close, block + third);
    assert(before + block + third =~= (before + block) + third + Seq::<char>::empty());
    text::a_piece_is_held(before + block, third, Seq::empty());
}

proof fn a_label_is_named(front: Seq<char>, label: Seq<char>, open: Seq<char>)
    requires
        front == "<?xml version=\"1.0\" encoding=\"UTF-8\"?>\n<!DOCTYPE plist PUBLIC \"-//Apple//DTD PLIST 1.0//EN\" \"http://www.apple.com/DTDs/PropertyList-1.0.dtd\">\n<plist version=\"1.0\">\n<dict>\n  <key>Label</key><string>"@,
    ensures
        text::contains(front + label + open, "<key>Label</key><string>"@ + label),
{
    reveal_strlit("<?xml version=\"1.0\" encoding=\"UTF-8\"?>\n<!DOCTYPE plist PUBLIC \"-//Apple//DTD PLIST 1.0//EN\" \"http://www.apple.com/DTDs/PropertyList-1.0.dtd\">\n<plist version=\"1.0\">\n<dict>\n  <key>Label</key><string>");
    reveal_strlit("<key>Label</key><string>");
    let key = "<key>Label</key><string>"@;
    let head = front.take(front.len() - key.len());
    assert(front.skip(front.len() - key.len()) =~= key);
    assert(front =~= head + key);
    assert(front + label + open =~= head + (key + label) + open);
    text::a_piece_is_held(head, key + label, open);
}

proof fn it_runs_the_binary(open: Seq<char>, value: Seq<char>, close: Seq<char>)
    requires
        open == "</string>\n  <key>ProgramArguments</key>\n  <array>\n    <string>"@,
        close == "</string>\n  </array>\n"@,
    ensures
        text::contains(
            open + value + close,
            "<key>ProgramArguments</key>\n  <array>\n    <string>"@ + value + "</string>"@,
        ),
{
    reveal_strlit("</string>\n  <key>ProgramArguments</key>\n  <array>\n    <string>");
    reveal_strlit("<key>ProgramArguments</key>\n  <array>\n    <string>");
    reveal_strlit("</string>\n  </array>\n");
    reveal_strlit("</string>");
    let key = "<key>ProgramArguments</key>\n  <array>\n    <string>"@;
    let head = open.take(open.len() - key.len());
    let tail = close.skip("</string>"@.len() as int);
    assert(open.skip(open.len() - key.len()) =~= key);
    assert(open =~= head + key);
    assert(close.take("</string>"@.len() as int) =~= "</string>"@);
    assert(close =~= "</string>"@ + tail);
    let inner = key + value + "</string>"@;
    assert(open + value + close =~= head + inner + tail);
    text::a_piece_is_held(head, inner, tail);
}

proof fn it_writes_to_the_log(keep: Seq<char>, value: Seq<char>, end: Seq<char>)
    requires
        keep
            == "  <key>RunAtLoad</key><true/>\n  <key>KeepAlive</key><true/>\n  <key>ProcessType</key><string>Background</string>\n  <key>StandardErrorPath</key><string>"@,
        end == "</string>\n</dict>\n</plist>\n"@,
    ensures
        text::contains(
            keep + value + end,
            "<key>StandardErrorPath</key><string>"@ + value + "</string>"@,
        ),
{
    reveal_strlit("  <key>RunAtLoad</key><true/>\n  <key>KeepAlive</key><true/>\n  <key>ProcessType</key><string>Background</string>\n  <key>StandardErrorPath</key><string>");
    reveal_strlit("<key>StandardErrorPath</key><string>");
    reveal_strlit("</string>\n</dict>\n</plist>\n");
    reveal_strlit("</string>");
    let key = "<key>StandardErrorPath</key><string>"@;
    let head = keep.take(keep.len() - key.len());
    let tail = end.skip("</string>"@.len() as int);
    assert(keep.skip(keep.len() - key.len()) =~= key);
    assert(keep =~= head + key);
    assert(end.take("</string>"@.len() as int) =~= "</string>"@);
    assert(end =~= "</string>"@ + tail);
    let inner = key + value + "</string>"@;
    assert(keep + value + end =~= head + inner + tail);
    text::a_piece_is_held(head, inner, tail);
}

proof fn no_authority_is_named(lines: Seq<Seq<char>>)
    requires
        forall|i: int| 0 <= i < lines.len() ==> !"Authority="@.is_prefix_of(#[trigger] lines[i]),
    ensures
        authority(lines) is None,
    decreases lines.len(),
{
    if lines.len() > 0 {
        assert(!"Authority="@.is_prefix_of(lines[lines.len() - 1]));
        assert forall|i: int| 0 <= i < lines.drop_last().len() implies !"Authority="@.is_prefix_of(
            #[trigger] lines.drop_last()[i],
        ) by {
            assert(lines[i] == lines.drop_last()[i]);
        }
        no_authority_is_named(lines.drop_last());
    }
}

/// A signature is told by the first authority that is named, unless a line calls it
/// ad-hoc, which goes before anything else; and by whether there is one at all where no
/// authority is named.
pub proof fn a_signature_is_told_by_its_leaf(printed: Seq<char>, name: Seq<char>, i: int)
    ensures
        (exists|j: int|
            0 <= j < text::lines(printed).len() && adhoc_line(#[trigger] text::lines(printed)[j]))
            ==> signature(printed) == "ad-hoc"@,
        (forall|j: int|
            0 <= j < text::lines(printed).len() ==> !adhoc_line(#[trigger] text::lines(printed)[j]))
            && 0 <= i < text::lines(printed).len() && text::lines(printed)[i] == "Authority="@
            + name && text::trim(name).len() > 0 && text::trim(name) != "(unavailable)"@ && (forall|
            j: int,
        |
            0 <= j < i ==> !"Authority="@.is_prefix_of(#[trigger] text::lines(printed)[j]))
            ==> signature(printed) == text::trim(name),
        (forall|j: int|
            0 <= j < text::lines(printed).len() ==> !adhoc_line(#[trigger] text::lines(printed)[j])
                && !"Authority="@.is_prefix_of(text::lines(printed)[j])) ==> signature(printed)
            == (if exists|j: int|
            0 <= j < text::lines(printed).len() && "Signature size="@.is_prefix_of(
                #[trigger] text::lines(printed)[j],
            ) {
            "signed"@
        } else {
            "unsigned"@
        }),
{
    let lines = text::lines(printed);
    if 0 <= i < lines.len() && lines[i] == "Authority="@ + name && (forall|j: int|
        0 <= j < i ==> !"Authority="@.is_prefix_of(#[trigger] lines[j])) {
        let upto = lines.take(i + 1);
        assert(upto.drop_last() =~= lines.take(i));
        assert forall|j: int| 0 <= j < lines.take(i).len() implies !"Authority="@.is_prefix_of(
            #[trigger] lines.take(i)[j],
        ) by {
            assert(lines[j] == lines.take(i)[j]);
        }
        no_authority_is_named(lines.take(i));
        let line = lines[i];
        assert(line.take("Authority="@.len() as int) =~= "Authority="@);
        assert(line.skip("Authority="@.len() as int) =~= name);
        the_first_authority_stands(lines, i + 1);
    }
    if forall|j: int| 0 <= j < lines.len() ==> !adhoc_line(#[trigger] lines[j])
        && !"Authority="@.is_prefix_of(lines[j]) {
        no_authority_is_named(lines);
    }
}

} // verus!
