//! What crosses the socket: requests that are served or turned away, frames, and
//! files in pieces.
use msg::contacts::ContactIndex;
use msg::daemon::client::{Heard, Waiting, closed, decode, hear};
use msg::daemon::config::read_config;
use msg::daemon::protocol::{
    Attachment, ErrorCode, Frame, PROTOCOL_VERSION, Request, SavePart, SearchRequest, SendRequest,
    encode, envelope, serve, unreadable_request,
};
use msg::daemon::server::{
    DaemonOptions, Payload, SAVE_CHUNK, Target, Work, answer, check_socket_path, is_stale, pack,
    payload, payload_from, received, save_chunk, save_head, save_reply, send_target, status_reply,
};
use msg::db;
use msg::source::contacts_reply;
use msg::{Error, VERSION};

fn error_of(frame: &Frame) -> (ErrorCode, String) {
    match frame {
        Frame::Error { code, message } => (*code, message.clone()),
        other => panic!("{other:?}"),
    }
}

/// The failure a client raises from a line.
fn raised(line: &str) -> Error {
    match hear(line) {
        Heard::Failed(error) => error,
        _ => panic!("{line}"),
    }
}

#[test]
fn refuses_a_version_it_does_not_speak() {
    let (code, message) = serve("{\"cmd\":\"status\",\"v\":99}\n").unwrap_err();
    assert_eq!(code, ErrorCode::Version);
    assert_eq!(code.name(), "version");
    assert!(message.contains("this client speaks 99"), "{message}");

    let (code, message) = serve("{\"cmd\":\"status\"}\n").unwrap_err();
    assert_eq!(code, ErrorCode::Version);
    assert!(message.contains("this client speaks nothing"), "{message}");
}

#[test]
fn refuses_a_command_it_does_not_know_rather_than_answering_nothing() {
    let line = format!("{{\"cmd\":\"nonesuch\",\"v\":{PROTOCOL_VERSION}}}\n");
    let (code, message) = serve(&line).unwrap_err();
    assert_eq!(code, ErrorCode::Error);
    assert!(message.contains("does not understand"), "{message}");
    assert!(message.contains("`nonesuch`"), "{message}");

    let (_, message) = serve(&format!("{{\"v\":{PROTOCOL_VERSION}}}")).unwrap_err();
    assert!(message.contains("does not understand ``"), "{message}");
}

#[test]
fn refuses_a_request_that_is_not_json() {
    let (code, message) = serve("this is not json\n").unwrap_err();
    assert_eq!(code, ErrorCode::Error);
    assert_eq!(message, "malformed request");
}

#[test]
fn reports_a_malformed_known_request_as_such() {
    let line = format!("{{\"cmd\":\"read\",\"v\":{PROTOCOL_VERSION}}}\n");
    let cmd = serve(&line).unwrap();
    let message = unreadable_request(&cmd, "missing field `chat`");
    assert_eq!(message, "msgd could not read this `read` request: missing field `chat`");
}

#[test]
fn round_trips_its_own_envelope() {
    let line = envelope("{\"cmd\":\"status\"}").unwrap();
    assert_eq!(serve(&line).unwrap(), "status");
    assert_eq!(line, format!("{{\"cmd\":\"status\",\"v\":{PROTOCOL_VERSION}}}\n"));
}

#[test]
fn only_an_object_is_an_envelope() {
    for json in ["[]", "7", "not json"] {
        let error = envelope(json).unwrap_err();
        assert_eq!(error.to_string(), "not a request");
    }
}

#[test]
fn every_failure_crosses_the_wire_whole() {
    let words = "a \"quoted\" path\\with\nlines — and é";
    let failures = [
        Error::AccessDenied(words.into()),
        Error::SendDisabled(words.into()),
        Error::Ambiguous(words.into()),
        Error::Other(words.into()),
    ];
    for error in failures {
        let line = encode(&Frame::from_error(&error));
        assert!(line.ends_with("}\n") && line.lines().count() == 1, "{line}");
        let heard = raised(&line);
        assert_eq!(format!("{heard:?}"), format!("{error:?}"));
    }
}

fn a_version_failure_is_raised_as_an_ordinary_one() {
    let frame = Frame::Error { code: ErrorCode::Version, message: "older".into() };
    let heard = raised(&encode(&frame));
    assert!(matches!(&heard, Error::Other(words) if words == "older"), "{heard:?}");
}

fn answers_and_items_are_told_apart() {
    let answer = encode(&Frame::Result { value: "[1,2]".into() });
    assert!(matches!(hear(&answer), Heard::Answer(value) if value == "[1,2]"));
    let item = encode(&Frame::Item { value: "{\"rowid\":7}".into() });
    assert!(matches!(hear(&item), Heard::Item(value) if value == "{\"rowid\":7}"));
    assert!(matches!(hear("  \n"), Heard::Nothing));
}

fn a_line_that_is_no_frame_is_repeated_in_part() {
    let long = "x".repeat(200);
    let error = decode(&long).unwrap_err().to_string();
    assert_eq!(error, format!("unexpected frame from msgd: {}", "x".repeat(80)));
    for line in ["{}", "{\"type\":\"result\"}", "{\"type\":\"error\",\"code\":\"odd\",\"message\":\"\"}"] {
        assert!(decode(line).is_err(), "{line}");
    }
    let (code, message) =
        error_of(&decode("{\"type\":\"error\",\"code\":\"ambiguous\",\"message\":\"two\"}").unwrap());
    assert_eq!((code, message.as_str()), (ErrorCode::Ambiguous, "two"));
}

fn a_connection_that_ends_is_never_an_answer() {
    let said = [
        closed(Waiting::Answer).to_string(),
        closed(Waiting::Attachment).to_string(),
        closed(Waiting::Messages).to_string(),
    ];
    assert_eq!(said[0], "msgd closed the connection without answering");
    assert!(said[1].contains("not saved whole"), "{}", said[1]);
    assert!(said[2].contains("watch ended"), "{}", said[2]);
}

fn attempt_send(chat: &str) -> Error {
    let request = Request::Send(SendRequest {
        chat: chat.into(),
        body: Some("hi".into()),
        names: Some(false),
        ..Default::default()
    });
    match answer(request) {
        Work::Send(asked) => {
            send_target(read_config(None), "/nowhere/config.toml", asked.chat).unwrap_err()
        }
        other => panic!("{other:?}"),
    }
}

#[test]
fn sending_is_off_for_every_test_here() {
    assert!(!read_config(None).send);
}

#[test]
fn refuses_when_the_config_key_is_absent_and_names_the_key() {
    let error = attempt_send("iMessage;-;+13105551234").to_string();
    assert!(error.contains("send = true"), "{error}");
    assert!(error.contains("sending is disabled"), "{error}");
}

#[test]
fn reports_the_refusal_as_its_own_code_not_a_generic_failure() {
    assert!(matches!(
        attempt_send("iMessage;-;+13105551234"),
        Error::SendDisabled(_)
    ));
}

#[test]
fn refuses_before_it_would_have_to_read_the_database() {
    let error = attempt_send("iMessage;+;chat9").to_string();
    assert!(error.contains("sending is disabled"), "{error}");
}

#[test]
fn a_guid_needs_no_lookup_and_a_name_does() {
    let on = read_config(Some("send = true"));
    let known = send_target(on, "", "iMessage;-;+13105551234".into()).unwrap();
    assert!(matches!(&known, Target::Known(guid) if guid == "iMessage;-;+13105551234"));
    let named = send_target(on, "", "Dana".into()).unwrap();
    assert!(matches!(&named, Target::Lookup(name) if name == "Dana"));
}

#[test]
fn what_a_request_leaves_out_is_filled_in() {
    match answer(Request::Search(SearchRequest { query: "x".into(), ..Default::default() })) {
        Work::Search(asked) => {
            assert_eq!((asked.limit, asked.unknown, asked.names), (25, false, true));
            assert!(!asked.context.wanted());
        }
        other => panic!("{other:?}"),
    }
    match answer(Request::Chats(Default::default())) {
        Work::Chats(asked) => assert_eq!((asked.limit, asked.names), (30, true)),
        other => panic!("{other:?}"),
    }
    match answer(Request::Read(Default::default())) {
        Work::Read(asked) => assert_eq!((asked.limit, asked.tapbacks), (50, false)),
        other => panic!("{other:?}"),
    }
}

#[test]
fn a_file_is_sent_as_the_bytes_it_was_packed_from() {
    let bytes: Vec<u8> = (0..=255).collect();
    let packed = pack("a.bin".into(), &bytes);
    assert!(packed.base64.starts_with("AAECAwQF"), "{}", packed.base64);
    match payload(Some(packed), Some("ignored".into())).unwrap() {
        Payload::File { name, data } => assert_eq!((name.as_str(), data), ("a.bin", bytes)),
        other => panic!("{other:?}"),
    }
}

fn an_attachment_that_cannot_be_read_is_refused() {
    let file = Attachment { name: "a".into(), base64: "not base64!".into() };
    let error = payload(Some(file), None).unwrap_err().to_string();
    assert!(error.starts_with("unreadable attachment: "), "{error}");
    let error = payload_from(Some(("a".into(), Err("why".into()))), None).unwrap_err();
    assert_eq!(error.to_string(), "unreadable attachment: why");
}

fn an_empty_text_is_nothing_to_send() {
    for body in [None, Some(String::new())] {
        let error = payload(None, body).unwrap_err().to_string();
        assert_eq!(error, "nothing to send");
    }
    assert!(matches!(payload(None, Some("hi".into())).unwrap(), Payload::Text(text) if text == "hi"));
}

fn attachment(name: Option<&str>) -> db::Attachment {
    db::Attachment {
        rowid: 91,
        name: name.map(str::to_string),
        mime_type: Some("image/png".into()),
        uti: None,
        total_bytes: 7,
        is_sticker: false,
        is_downloaded: true,
    }
}

#[test]
fn it_streams_an_attachment_larger_than_one_chunk() {
    let payload: Vec<u8> = (0..(9 * 1024 * 1024 + 7u32)).map(|i| (i % 251) as u8).collect();
    let source = db::Attachment {
        name: Some("big.bin".into()),
        mime_type: Some("application/octet-stream".into()),
        total_bytes: payload.len() as i64,
        ..attachment(None)
    };
    match save_head(&source, 91) {
        SavePart::Head { name, total_bytes, .. } => {
            assert_eq!((name.as_str(), total_bytes), ("big.bin", payload.len() as i64));
        }
        other => panic!("{other:?}"),
    }
    let mut written: Vec<u8> = Vec::new();
    let mut chunks = 0usize;
    for piece in payload.chunks(SAVE_CHUNK) {
        match save_chunk(piece) {
            SavePart::Chunk { base64 } => {
                chunks += 1;
                written.extend_from_slice(&received(&base64).unwrap());
            }
            other => panic!("{other:?}"),
        }
    }
    assert_eq!(written.len(), payload.len(), "wrong number of bytes");
    assert!(written == payload, "bytes differ");
    assert!(chunks >= 3, "{chunks} chunks crossed the wire");
    let reply = save_reply(&source, 91, written.len() as i64);
    assert_eq!(reply.bytes, payload.len() as i64);
    assert_eq!(reply.name, "big.bin");
    let error = received("?").unwrap_err().to_string();
    assert!(error.starts_with("msgd sent "), "{error}");
}

fn a_nameless_attachment_is_called_after_its_id() {
    match save_head(&attachment(None), 91) {
        SavePart::Head { name, mime_type, total_bytes } => {
            assert_eq!(name, "attachment-91");
            assert_eq!(mime_type.as_deref(), Some("image/png"));
            assert_eq!(total_bytes, 7);
        }
        other => panic!("{other:?}"),
    }
    let reply = save_reply(&attachment(Some("a.png")), 91, 7);
    assert_eq!((reply.name.as_str(), reply.bytes), ("a.png", 7));
}

#[test]
fn an_attachment_it_may_not_read_is_not_reported_as_missing() {
    let error = msg::attachments::unreadable(92, true, "Permission denied");
    let said = error.to_string();
    assert!(!said.contains("gone"), "a refused file is not a missing one: {said}");
    assert!(matches!(error, Error::AccessDenied(_)), "{error:?}");
    assert!(said.contains("92"), "should name the attachment: {said}");
    assert!(!said.contains("cannot read the Messages database"), "{said}");

    let missing = msg::attachments::unreadable(92, false, "No such file");
    assert!(matches!(missing, Error::Other(_)), "{missing:?}");
}

#[test]
fn reports_the_database_it_is_reading() {
    let index = ContactIndex::for_test([("3105551234", "test:1", "Dana Reyes")])
        .with_problem("one source could not be read");
    let status = status_reply(42, 1_499, "/tmp/chat.db".into(), 5, &index, 2);
    assert_eq!(status.database, "/tmp/chat.db");
    assert_eq!(status.protocol, PROTOCOL_VERSION);
    assert_eq!(status.message_count, 5);
    assert_eq!(status.version, VERSION);
    assert_eq!((status.pid, status.uptime_seconds, status.watchers), (42, 1, 2));
    assert_eq!(status.contact_count, 1);
    assert_eq!(status.contact_problems, ["one source could not be read"]);
    assert_eq!(status_reply(1, 1_500, String::new(), 0, &index, 0).uptime_seconds, 2);
}

#[test]
fn resolves_handles_without_reading_the_testers_contacts() {
    let asked = vec!["+13105551234".to_string()];
    let reply = contacts_reply(&asked, &ContactIndex::empty());
    assert_eq!(reply.resolved[0].handle, "+13105551234");
    assert_eq!((reply.size, reply.resolved[0].name.as_deref()), (0, None));
}

fn a_socket_path_has_to_fit() {
    assert!(check_socket_path("/tmp/msgd.sock", 14).is_ok());
    assert!(check_socket_path("x", 103).is_ok());
    let error = check_socket_path("/long", 104).unwrap_err().to_string();
    assert_eq!(error, "socket path is too long for macOS (104 > 103): /long");
}

fn an_empty_index_is_tried_again_sooner() {
    let second = 1_000_000_000u128;
    assert!(is_stale(None));
    assert!(!is_stale(Some((true, 10 * second))));
    assert!(is_stale(Some((true, 10 * second + 1))));
    assert!(!is_stale(Some((false, 600 * second))));
    assert!(is_stale(Some((false, 600 * second + 1))));
}

fn a_daemon_reads_where_it_is_told_or_where_it_is_documented() {
    let options = DaemonOptions::default();
    assert!(options.db_path.is_none() && options.config_path.is_none());
}

/// What a client makes of each kind of line, and of there being none.
#[test]
fn every_line_means_something_to_one_who_waits() {
    a_version_failure_is_raised_as_an_ordinary_one();
    answers_and_items_are_told_apart();
    a_line_that_is_no_frame_is_repeated_in_part();
    a_connection_that_ends_is_never_an_answer();
}

/// The edges of sending and of saving.
#[test]
fn what_is_sent_and_saved_has_bytes_and_a_name() {
    an_attachment_that_cannot_be_read_is_refused();
    an_empty_text_is_nothing_to_send();
    a_nameless_attachment_is_called_after_its_id();
}

/// What the daemon holds itself to.
#[test]
fn the_daemon_keeps_its_limits() {
    a_socket_path_has_to_fit();
    an_empty_index_is_tried_again_sooner();
    a_daemon_reads_where_it_is_told_or_where_it_is_documented();
}
