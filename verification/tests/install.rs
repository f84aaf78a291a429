//! Installing the daemon.
use msg::daemon::install::{
    Environment, Grant, binary_path, built_bundle, bundle_path, daemon_environment,
    describe_signature, plist, xml_text,
};
use msg::daemon::protocol::LABEL;

fn env(pairs: &[(&str, &str)]) -> Environment {
    daemon_environment(|name| {
        pairs
            .iter()
            .find(|(key, _)| *key == name)
            .map(|(_, value)| (*value).to_string())
    })
}

#[test]
fn only_a_daemon_that_cannot_read_gets_the_pane_opened() {
    assert!(!Grant::Held { message_count: 1 }.needs_pane());
    assert!(!Grant::Held { message_count: 0 }.needs_pane());
    assert!(Grant::Missing.needs_pane());
    assert!(Grant::Unknown.needs_pane());
}

#[test]
fn it_runs_the_binary_it_was_given_under_the_label_the_grant_is_keyed_to() {
    let text = plist("/opt/msgd", "/tmp/msgd.log", &Environment::new());
    assert!(
        text.contains(&format!("<string>{LABEL}</string>")),
        "{text}"
    );
    assert!(text.contains("<string>/opt/msgd</string>"), "{text}");
    assert!(text.contains("<key>KeepAlive</key><true/>"), "{text}");
}

#[test]
fn it_runs_the_executable_from_inside_contents_macos() {
    let home = "/Users/dana";
    assert_eq!(
        binary_path(home),
        format!("{}/Contents/MacOS/msgd", bundle_path(home))
    );
    assert!(bundle_path(home).ends_with(".app"));
}

#[test]
fn the_environment_carries_only_what_the_daemon_reads() {
    let carried = env(&[
        ("MSG_SOCKET", "/tmp/msgd.sock"),
        ("MSG_CONFIG", "/tmp/config.toml"),
        ("MSG_SIGN_IDENTITY", "msg dev"),
        ("PATH", "/usr/bin"),
        ("MSG_EMPTY", ""),
    ]);
    assert_eq!(carried.len(), 2);
    assert_eq!(carried.get("MSG_SOCKET").unwrap(), "/tmp/msgd.sock");
    assert_eq!(carried.get("MSG_CONFIG").unwrap(), "/tmp/config.toml");
}

#[test]
fn it_never_carries_msg_db() {
    assert!(env(&[("MSG_DB", "/tmp/fixture.db")]).is_empty());
    let carried = env(&[("MSG_DB", "/tmp/fixture.db"), ("MSG_SOCKET", "/tmp/x.sock")]);
    assert_eq!(carried.len(), 1);
    assert!(carried.contains_key("MSG_SOCKET"));
}

#[test]
fn it_writes_the_environment_into_the_job_since_launchd_inherits_nothing() {
    let text = plist(
        "/opt/msgd",
        "/tmp/msgd.log",
        &env(&[("MSG_SOCKET", "/tmp/msgd.sock")]),
    );
    assert!(text.contains("<key>EnvironmentVariables</key>"), "{text}");
    assert!(
        text.contains("<key>MSG_SOCKET</key><string>/tmp/msgd.sock</string>"),
        "{text}"
    );
}

#[test]
fn it_omits_the_key_entirely_when_there_is_nothing_to_carry() {
    let text = plist("/opt/msgd", "/tmp/msgd.log", &Environment::new());
    assert!(!text.contains("EnvironmentVariables"), "{text}");
}

const SELF_SIGNED: &str = "Identifier=com.ninjudd.msgd
CodeDirectory v=20400 size=234857 flags=0x0(none) hashes=7334+2 location=embedded
Signature size=1660
Info.plist entries=4";

#[test]
fn it_recognises_a_signature_with_no_authority_line() {
    assert_eq!(describe_signature(SELF_SIGNED), "signed");
}

#[test]
fn it_calls_out_ad_hoc_since_its_grant_dies_on_the_next_rebuild() {
    assert_eq!(
        describe_signature(
            "CodeDirectory v=20400 size=1 flags=0x2(adhoc) hashes=1+2\nSignature size=1"
        ),
        "ad-hoc"
    );
}

#[test]
fn it_prefers_the_authority_when_there_is_one() {
    assert_eq!(
        describe_signature("Signature size=9\nAuthority=Apple Development: Someone\n"),
        "Apple Development: Someone"
    );
}

#[test]
fn it_reports_an_unsigned_binary_as_unsigned() {
    assert_eq!(
        describe_signature("Identifier=x\nFormat=Mach-O thin (arm64)\n"),
        "unsigned"
    );
}

#[test]
fn it_ignores_the_placeholder_codesign_prints_for_a_chain_it_cannot_build() {
    assert_eq!(
        describe_signature(
            "Identifier=com.ninjudd.msgd\nSignature size=1660\nAuthority=(unavailable)\n"
        ),
        "signed"
    );
}

#[test]
fn it_takes_the_leaf_when_a_full_chain_is_printed() {
    assert_eq!(
        describe_signature(
            "Signature size=4813
Authority=Developer ID Application: Someone (ABCDE12345)
Authority=Developer ID Certification Authority
Authority=Apple Root CA"
        ),
        "Developer ID Application: Someone (ABCDE12345)"
    );
}

#[test]
fn it_installs_from_a_bundle_beside_the_binary() {
    assert!(built_bundle(Some("/Users/dana/msg/build")).ends_with("msgd.app"));
    assert!(built_bundle(None).ends_with("msgd.app"));
}

/// A value with markup in it stays a value.
#[test]
fn it_escapes_values_rather_than_producing_invalid_xml() {
    assert_eq!(xml_text("/tmp/a&b<c>.toml"), "/tmp/a&amp;b&lt;c&gt;.toml");
    let text = plist(
        "/opt/msgd",
        "/tmp/msgd.log",
        &env(&[("MSG_CONFIG", "/tmp/a&b<c>.toml")]),
    );
    assert!(
        text.contains("<key>MSG_CONFIG</key><string>/tmp/a&amp;b&lt;c&gt;.toml</string>"),
        "{text}"
    );
}
