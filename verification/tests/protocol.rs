//! The wire.
use msg::daemon::client::decode;
use msg::daemon::protocol::{
    ChatsRequest, ContactsRequest, Empty, ErrorCode, Frame, PROTOCOL_VERSION, ReadRequest, Request,
    ResolveRequest, SearchRequest, SendRequest, WatchRequest, encode, envelope, is_chat_guid,
    is_command, serve,
};

#[test]
fn recognises_the_guids_messages_writes() {
    for guid in [
        "iMessage;-;+13105551234",
        "iMessage;+;chat9",
        "SMS;-;+18885550000",
        "iMessage;-;someone@example.com",
    ] {
        assert!(is_chat_guid(guid), "{guid}");
    }
}

#[test]
fn does_not_mistake_a_chat_name_that_contains_a_semicolon() {
    for name in [
        "Lunch; also dinner",
        "a;b;c",
        ";-;x",
        "iMessage;-;",
        "iMessage;x;chat9",
        "iMessage;-;\n",
    ] {
        assert!(!is_chat_guid(name), "{name}");
    }
}

#[test]
fn does_not_mistake_an_ordinary_name_or_a_rowid() {
    for name in ["Ship Room", "42", "+13105551234"] {
        assert!(!is_chat_guid(name), "{name}");
    }
}

#[test]
fn writes_the_error_codes_the_typescript_end_reads() {
    let frame = Frame::Error {
        code: ErrorCode::SendDisabled,
        message: "off".into(),
    };
    assert_eq!(
        encode(&frame).trim(),
        r#"{"type":"error","code":"send-disabled","message":"off"}"#
    );
}

#[test]
fn writes_the_envelope_flat_with_a_version() {
    let line = envelope(r#"{"cmd":"status"}"#).unwrap();
    let value: serde_json::Value = serde_json::from_str(&line).unwrap();
    assert_eq!(value["cmd"], "status");
    assert_eq!(value["v"], PROTOCOL_VERSION);
    assert!(line.ends_with('\n'));
}

#[test]
fn reads_the_error_codes_the_typescript_end_writes() {
    let frame = decode(r#"{"type":"error","code":"access-denied","message":"no"}"#).unwrap();
    match frame {
        Frame::Error { code, .. } => assert_eq!(code, ErrorCode::AccessDenied),
        other => panic!("{other:?}"),
    }
}

#[test]
fn round_trips_every_request_through_its_wire_form() {
    let requests = [
        Request::Chats(ChatsRequest::default()),
        Request::Read(ReadRequest {
            chat: "1".into(),
            ..Default::default()
        }),
        Request::Search(SearchRequest {
            query: "x".into(),
            ..Default::default()
        }),
        Request::Watch(WatchRequest::default()),
        Request::Resolve(ResolveRequest {
            chat: "1".into(),
            ..Default::default()
        }),
        Request::Send(SendRequest {
            chat: "1".into(),
            ..Default::default()
        }),
        Request::Contacts(ContactsRequest::default()),
        Request::Automation(Empty {}),
        Request::Status(Empty {}),
    ];
    for request in requests {
        let name = request.command();
        assert!(is_command(name), "{name} is not known");
        let line = envelope(&format!(r#"{{"cmd":"{name}"}}"#)).unwrap();
        assert_eq!(serve(&line).unwrap(), name);
    }
}
