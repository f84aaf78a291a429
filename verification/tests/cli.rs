//! What `msg` makes of its arguments, and what it prints.
use msg::access::missing_database;
use msg::apple::since_to_apple_date;
use msg::cli::{
    Places, automation_report, contacts_report, dry_run_report, install_report, installed_report,
    outgoing, positive, positive_seconds, read_report, saved_report, sent_report, status_for,
    status_report, uninstall_report, usage_status, widths,
};
use msg::context::Context;
use msg::daemon::install::{Environment, Grant, Installed};
use msg::daemon::protocol::{AutomationReply, ContactsReply, ResolvedHandle, StatusReply};
use msg::{Error, unusable_time};

#[test]
fn a_limit_is_a_whole_number_above_zero() {
    assert_eq!(positive("1"), Ok(1));
    assert_eq!(positive("+30"), Ok(30));
    assert_eq!(positive("9223372036854775807"), Ok(i64::MAX));
    for value in ["0", "-1", "", "+", "1.5", "x", "9223372036854775808", " 1"] {
        assert_eq!(
            positive(value),
            Err(format!("expected a positive integer, got {value}")),
            "{value}"
        );
    }
    assert_eq!(positive_seconds("18446744073709551615"), Ok(u64::MAX));
    assert!(positive_seconds("18446744073709551616").is_err());
}

#[test]
fn a_database_that_is_not_there_exits_two() {
    assert_eq!(status_for(&missing_database("/nowhere/chat.db")), 2);
}

#[test]
fn an_ordinary_failure_exits_one() {
    assert_eq!(status_for(&Error::Other("no chat matching x".into())), 1);
    assert_eq!(status_for(&Error::SendDisabled("off".into())), 1);
    assert_eq!(status_for(&Error::Ambiguous("two".into())), 3);
}

#[test]
fn a_usage_error_exits_one_rather_than_claiming_the_permission_status() {
    assert_eq!(usage_status(true), 1);
}

#[test]
fn help_and_version_are_successes() {
    assert_eq!(usage_status(false), 0);
}

#[test]
fn an_explicit_zero_width_beats_the_shorthand() {
    let all = widths(Some(0), None, Some(2));
    assert_eq!(all, Context { before: 0, after: 2 });
    assert_eq!(widths(None, None, None), Context { before: 0, after: 0 });
    assert_eq!(widths(None, Some(1), None), Context { before: 0, after: 1 });
}

#[test]
fn a_time_that_cannot_be_read_is_said_to_be_one() {
    let error = unusable_time(&since_to_apple_date("soonish").unwrap_err());
    assert!(error.to_string().contains("soonish"), "{error:?}");
    assert_eq!(status_for(&error), 1);
}

fn a_transcript_is_headed_by_its_conversation() {
    assert_eq!(read_report("Dana", "hi\n"), "Dana\n\nhi\n");
}

fn resolved(handle: &str, name: Option<&str>, filed_as: Option<&str>) -> ResolvedHandle {
    ResolvedHandle {
        handle: handle.into(),
        name: name.map(str::to_string),
        filed_as: filed_as.map(str::to_string),
    }
}

fn a_lookup_prints_both_names() {
    let reply = ContactsReply {
        size: 12,
        resolved: vec![
            resolved("+13105551234", Some("Dee"), Some("Dana Reyes")),
            resolved("a@example.com", Some("Sam"), None),
            resolved("22000", None, None),
        ],
    };
    assert_eq!(
        contacts_report(&reply, true),
        "+13105551234\tDee (Dana Reyes)\na@example.com\tSam\n22000\t(unknown)\n"
    );
    assert_eq!(contacts_report(&reply, false), "12 handles known from Contacts\n");
}

#[test]
fn what_is_sent_is_the_words_or_the_file() {
    let words = vec!["on".to_string(), "my".to_string(), "way".to_string()];
    let text = outgoing(&words, None).unwrap();
    assert_eq!((text.text.as_str(), text.what.as_str()), ("on my way", "on my way"));
    let file = outgoing(&[], Some("/tmp/a.png")).unwrap();
    assert_eq!((file.text.as_str(), file.what.as_str()), ("", "/tmp/a.png"));
    let error = outgoing(&[], None).unwrap_err().to_string();
    assert_eq!(error, "nothing to send, provide message text or --file");
}

#[test]
fn dry_run_resolves_and_prints_without_sending() {
    assert_eq!(dry_run_report("Dana (+1)", "hi"), "would send to Dana (+1): hi\n");
    assert_eq!(sent_report("Dana (+1)", "hi"), "sent to Dana (+1): hi\n");
    assert_eq!(saved_report("/tmp/a.png", 1_536), "/tmp/a.png (1.5 KB)\n");
}

fn installed(replaced_legacy: bool) -> Installed {
    Installed {
        bundle: "/b.app".into(),
        binary: "/b.app/Contents/MacOS/msgd".into(),
        plist: "/p.plist".into(),
        socket: "/s.sock".into(),
        log: "/l.log".into(),
        replaced_legacy,
        environment: Environment {
            entries: vec![("MSG_SOCKET".into(), "/s.sock".into())],
        },
    }
}

fn an_install_says_what_is_left_to_do() {
    assert_eq!(
        installed_report(&installed(false), "msg dev"),
        "installed /b.app (signed msg dev)\nstarted /p.plist\ncarried MSG_SOCKET=/s.sock\n"
    );
    let held = install_report(&installed(false), "msg dev", Grant::Held { message_count: 9 });
    assert!(held.starts_with("\nNothing left to do: "), "{held}");
    assert!(held.contains("9 messages in"), "{held}");
    assert!(!held.contains("unbundled") && !held.contains("ad-hoc"), "{held}");
    let missing = install_report(&installed(true), "ad-hoc", Grant::Missing);
    assert!(missing.contains("One step left"), "{missing}");
    assert!(missing.contains("unbundled") && missing.contains("signed ad-hoc"), "{missing}");
    let unknown = install_report(&installed(false), "signed", Grant::Unknown);
    assert!(unknown.contains("did not answer"), "{unknown}");
}

fn an_uninstall_says_what_it_removed() {
    let all = uninstall_report(&["/p.plist".to_string(), "/b.app".to_string()]);
    assert!(all.starts_with("removed /p.plist\nremoved /b.app\n"), "{all}");
    assert!(all.contains("tccutil reset AppleEvents com.ninjudd.msgd"), "{all}");
    assert!(uninstall_report(&[]).starts_with("nothing to remove\n"));
}

fn automation(allowed: bool, config_enabled: bool) -> String {
    automation_report(&AutomationReply {
        allowed,
        detail: "why".into(),
        config_enabled,
    })
}

fn both_gates_are_reported() {
    let open = automation(true, true);
    assert!(open.starts_with("automation  allowed\nconfig      send = true\n"), "{open}");
    assert!(open.contains("Both gates are open"), "{open}");
    let config = automation(true, false);
    assert!(config.contains("the config is what is refusing it"), "{config}");
    let refused = automation(false, true);
    assert!(refused.starts_with("automation  refused\nconfig      send = true\n\nwhy\n"), "{refused}");
}

fn a_status_is_a_line_for_each_thing() {
    let places = Places {
        plist: "/p.plist".into(),
        bundle: "/b.app".into(),
        socket: "/s.sock".into(),
        log: "/l.log".into(),
    };
    assert_eq!(
        status_report(false, &places, &None),
        "agent      not loaded (/p.plist)\nbundle     /b.app\nsocket     /s.sock (not listening)\nlog        /l.log\n"
    );
    let status = StatusReply {
        version: "0.1.0".into(),
        protocol: 10,
        pid: 7,
        uptime_seconds: 3,
        database: "/chat.db".into(),
        message_count: 5,
        contact_count: 2,
        contact_problems: vec!["no access".into()],
        watchers: 1,
    };
    assert_eq!(
        status_report(true, &places, &Some(status)),
        "agent      loaded (/p.plist)\nbundle     /b.app\nsocket     /s.sock\nlog        /l.log\nversion    0.1.0 (protocol 10), pid 7, up 3s\ndatabase   /chat.db\nmessages   5\ncontacts   2 handles\n           no access\nwatchers   1\n"
    );
}

/// Every report a command ends with.
#[test]
fn every_report_is_written_out_in_full() {
    a_transcript_is_headed_by_its_conversation();
    a_lookup_prints_both_names();
    an_install_says_what_is_left_to_do();
    an_uninstall_says_what_it_removed();
    both_gates_are_reported();
    a_status_is_a_line_for_each_thing();
}
