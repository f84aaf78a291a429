//! Where a question is answered, and what is asked of the daemon for it.
use msg::access::{
    Opening, copy_failure, database_path, latest_rowid, missing_database, open_failure,
    reads_as_permission, with_suffix,
};
use msg::contacts::ContactIndex;
use msg::context::Context;
use msg::daemon::protocol::{DENIED, Request, socket_path, state_directory};
use msg::daemon::server::{Work, answer};
use msg::source::{
    ChatsQuery, Kind, ReadQuery, SearchQuery, SendQuery, WatchQuery, automation_refused,
    chats_request, contacts_reply, contacts_request, may_ask_daemon, may_place, name_of, open_source,
    read_request, resolve_request, saved_name, search_request, seen_upto, send_request,
    stopped_listening, temporary_name, watch_request,
};
use msg::Error;

#[test]
fn a_database_that_is_named_is_read_without_the_daemon() {
    let (path, kind) = open_source(Some("/tmp/chat.db".into()), None, true);
    assert_eq!((path.as_deref(), kind), (Some("/tmp/chat.db"), Kind::Direct));
    let (path, kind) = open_source(None, Some("/tmp/other.db"), true);
    assert_eq!((path.as_deref(), kind), (Some("/tmp/other.db"), Kind::Direct));
    let (path, kind) = open_source(None, Some(""), true);
    assert_eq!((path, kind), (None, Kind::Daemon));
    let (path, kind) = open_source(None, None, false);
    assert_eq!((path, kind), (None, Kind::Direct));
    assert!(may_ask_daemon(None, Some("")) && may_ask_daemon(None, None));
    assert!(!may_ask_daemon(Some("/tmp/chat.db"), None));
    assert!(!may_ask_daemon(None, Some("/tmp/other.db")));
}

fn a_database_is_looked_for_where_it_is_said_to_be() {
    let home = "/Users/dana";
    assert_eq!(database_path(Some("/a.db"), Some("/b.db"), home), "/a.db");
    assert_eq!(database_path(Some(""), Some("/b.db"), home), "/b.db");
    assert_eq!(
        database_path(None, Some(""), home),
        "/Users/dana/Library/Messages/chat.db"
    );
}

fn the_socket_lives_in_the_state_directory_unless_it_is_named() {
    let state = state_directory(Some("/tmp/state"), "/Users/dana");
    assert_eq!(state, "/tmp/state");
    assert_eq!(socket_path(None, &state), "/tmp/state/msgd.sock");
    assert_eq!(socket_path(Some("/tmp/s.sock"), &state), "/tmp/s.sock");
}

#[test]
fn a_query_survives_being_asked_of_the_daemon() {
    let query = SearchQuery {
        query: "deploy".into(),
        chat: Some("Ship Room".into()),
        with: None,
        from: Some("Dana".into()),
        limit: 7,
        since: Some("2h".into()),
        unknown: true,
        names: false,
        context: Context { before: 0, after: 3 },
    };
    match answer(search_request(&query)) {
        Work::Search(asked) => {
            assert_eq!(format!("{asked:?}"), format!("{query:?}"));
        }
        other => panic!("{other:?}"),
    }
    let query = ReadQuery {
        chat: "Dana".into(),
        limit: 3,
        since: None,
        tapbacks: true,
        names: true,
        unknown: false,
    };
    match answer(read_request(&query)) {
        Work::Read(asked) => assert_eq!(format!("{asked:?}"), format!("{query:?}")),
        other => panic!("{other:?}"),
    }
    let query = ChatsQuery { query: None, limit: 5, unknown: true, names: true };
    match answer(chats_request(&query)) {
        Work::Chats(asked) => assert_eq!(format!("{asked:?}"), format!("{query:?}")),
        other => panic!("{other:?}"),
    }
    let query = WatchQuery {
        chat: Some("1".into()),
        tapbacks: true,
        unknown: false,
        names: false,
        interval: 3,
    };
    match answer(watch_request(&query)) {
        Work::Watch(asked) => {
            assert_eq!(asked.chat.as_deref(), Some("1"));
            assert!(asked.tapbacks && !asked.unknown && !asked.names);
        }
        other => panic!("{other:?}"),
    }
    match answer(resolve_request("Dana", false)) {
        Work::Resolve { chat, names } => assert_eq!((chat.as_str(), names), ("Dana", false)),
        other => panic!("{other:?}"),
    }
    match answer(contacts_request(vec!["a".into(), "b".into()])) {
        Work::Contacts(handles) => assert_eq!(handles, ["a", "b"]),
        other => panic!("{other:?}"),
    }
}

#[test]
fn sending_without_a_daemon_refuses_rather_than_trying() {
    let query = || SendQuery {
        chat: "Dana".into(),
        body: Some("hi".into()),
        file: None,
        names: true,
    };
    let error = send_request(Kind::Direct, query()).unwrap_err().to_string();
    assert!(error.contains("sending needs the daemon"), "{error}");
    assert!(error.contains("msg daemon install"), "{error}");
    match send_request(Kind::Daemon, query()).unwrap() {
        Request::Send(ask) => assert_eq!((ask.chat.as_str(), ask.names), ("Dana", None)),
        other => panic!("{other:?}"),
    }
    let error = automation_refused().to_string();
    assert!(error.contains("not running"), "{error}");
    let error = stopped_listening().to_string();
    assert!(error.contains("stopped listening"), "{error}");
}

#[test]
fn a_lookup_answers_every_term_and_echoes_what_nobody_has() {
    let index = ContactIndex::for_test([
        ("3105551234", "test:1", "Dana Reyes"),
        ("dana@example.com", "test:1", "Dana Reyes"),
    ])
    .nicknamed("3105551234", "Dee");
    let asked = vec!["(310) 555-1234".to_string(), "nobody@example.com".to_string()];
    let reply = contacts_reply(&asked, &index);
    assert_eq!(reply.size, 2);
    assert_eq!(reply.resolved.len(), 2);
    assert_eq!(reply.resolved[0].handle, "3105551234");
    assert_eq!(reply.resolved[0].name.as_deref(), Some("Dee"));
    assert_eq!(reply.resolved[0].filed_as.as_deref(), Some("Dana Reyes"));
    assert_eq!(reply.resolved[1].handle, "nobody@example.com");
    assert_eq!(reply.resolved[1].name, None);
}

fn an_attachment_is_saved_under_a_name_that_stays_put() {
    assert_eq!(name_of(None, 9), "attachment-9");
    assert_eq!(name_of(Some("a.png"), 9), "a.png");
    assert_eq!(temporary_name(42, 9), ".msg-save-42-9");
    assert_eq!(saved_name(Some("../../etc/passwd"), 9), "passwd");
    assert_eq!(saved_name(Some(".."), 9), "attachment");
    assert_eq!(saved_name(None, 9), "attachment-9");
}

fn nothing_is_replaced_unless_it_was_forced() {
    assert!(may_place("/tmp/a.png", false, false).is_ok());
    assert!(may_place("/tmp/a.png", true, true).is_ok());
    let error = may_place("/tmp/a.png", true, false).unwrap_err().to_string();
    assert_eq!(error, "/tmp/a.png already exists; pass --force to replace it");
}

fn a_watermark_stays_without_messages() {
    assert_eq!(seen_upto(7, &[]), 7);
    assert_eq!(latest_rowid(None), 0);
    assert_eq!(latest_rowid(Some(None)), 0);
    assert_eq!(latest_rowid(Some(Some(7))), 7);
}

#[test]
fn a_daemon_that_cannot_read_the_database_says_so_in_its_own_words() {
    let words = "unable to open database file";
    let error = match open_failure("/tmp/chat.db", words, false) {
        Opening::Refuse(error) => error,
        Opening::Snapshot => panic!("a daemon never reads a copy"),
    };
    assert!(matches!(error, Error::AccessDenied(_)), "{error:?}");
    let error = error.to_string();
    assert!(error.contains("Grant Full Disk Access to msgd"), "{error}");
    assert!(!error.contains("Install the daemon"), "{error}");
    assert_eq!(error, format!("{DENIED}\n\n{words}"));
}

#[test]
fn a_reader_tries_a_copy_unless_it_was_refused() {
    let words = "unable to open database file";
    assert!(matches!(open_failure("/tmp/chat.db", words, true), Opening::Snapshot));
    let error = match open_failure("/tmp/chat.db", "Authorization Denied", true) {
        Opening::Refuse(error) => error.to_string(),
        Opening::Snapshot => panic!("refused"),
    };
    assert!(error.starts_with("cannot read /tmp/chat.db\n"), "{error}");
    assert!(error.contains("msg daemon install"), "{error}");
    assert!(reads_as_permission("Operation not permitted: permission"));
    assert!(!reads_as_permission("disk full"));
}

#[test]
fn a_copy_that_is_refused_is_a_denial() {
    let error = copy_failure("/tmp/chat.db", true, "ignored");
    assert!(matches!(error, Error::AccessDenied(_)), "{error:?}");
    let error = copy_failure("/tmp/chat.db", false, "disk full");
    assert!(matches!(&error, Error::Other(words) if words == "disk full"), "{error:?}");
    assert_eq!(with_suffix("/tmp/chat.db", "-wal"), "/tmp/chat.db-wal");
    let error = missing_database("/tmp/chat.db");
    assert_eq!(error.to_string(), "no Messages database at /tmp/chat.db");
}

/// Saving and following, before anything has happened.
#[test]
fn saving_and_following_start_from_nothing() {
    a_watermark_stays_without_messages();
    nothing_is_replaced_unless_it_was_forced();
    an_attachment_is_saved_under_a_name_that_stays_put();
}

/// Where things are, and what names them.
#[test]
fn every_path_can_be_set() {
    a_database_is_looked_for_where_it_is_said_to_be();
    the_socket_lives_in_the_state_directory_unless_it_is_named();
}
