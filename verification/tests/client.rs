//! What a client makes of what the daemon says.
use msg::Error;
use msg::daemon::client::{Heard, Waiting, closed, decode, hear, raise, ran_out_of_time};
use msg::daemon::protocol::{ErrorCode, Frame, Request, SearchRequest, encode};

#[test]
fn a_timeout_answers_with_words_rather_than_an_errno() {
    let request = Request::Search(SearchRequest {
        query: "ing".into(),
        ..Default::default()
    });
    let words = ran_out_of_time(request.command(), true, "would block").to_string();
    assert!(words.contains("`search`"), "{words}");
    assert!(words.contains("timeout, not a crash"), "{words}");
    assert!(words.contains("msg daemon status"), "{words}");

    let words = ran_out_of_time(request.command(), false, "broken pipe").to_string();
    assert!(!words.contains("timeout"), "{words}");
    assert_eq!(words, "broken pipe");
}

#[test]
fn every_failure_is_raised_as_it_was_framed() {
    for error in [
        Error::AccessDenied("a \"quoted\" word".into()),
        Error::SendDisabled("off".into()),
        Error::Ambiguous("two\nlines".into()),
        Error::Other("plain".into()),
    ] {
        let line = encode(&Frame::from_error(&error));
        let Heard::Failed(raised) = hear(&line) else {
            panic!("{line}");
        };
        assert_eq!(format!("{raised:?}"), format!("{error:?}"));
    }
    assert!(matches!(raise(ErrorCode::Version, "v".into()), Error::Other(_)));
}

#[test]
fn a_frame_reads_back_as_the_one_that_was_written() {
    let line = encode(&Frame::Item { value: r#"{"rowid":7,"body":"caf\u00e9"}"#.into() });
    let Ok(Frame::Item { value }) = decode(line.trim()) else {
        panic!("{line}");
    };
    assert_eq!(value, r#"{"body":"café","rowid":7}"#);
    assert!(matches!(hear("  \n"), Heard::Nothing));
    assert!(matches!(hear(r#"{"type":"result","value":null}"#), Heard::Answer(value) if value == "null"));
}

#[test]
fn a_line_that_is_no_frame_is_repeated_up_to_a_point() {
    for line in ["nonsense", "{}", r#"{"type":"result"}"#, r#"{"type":"error","code":"odd","message":"m"}"#] {
        let error = decode(line).unwrap_err().to_string();
        assert_eq!(error, format!("unexpected frame from msgd: {line}"));
    }
    let long = "x".repeat(200);
    let error = decode(&long).unwrap_err().to_string();
    assert_eq!(error, format!("unexpected frame from msgd: {}", "x".repeat(80)));
}

#[test]
fn a_connection_that_ends_early_says_what_it_cost() {
    assert!(closed(Waiting::Answer).to_string().contains("without answering"));
    assert!(closed(Waiting::Attachment).to_string().contains("not saved whole"));
    assert!(closed(Waiting::Messages).to_string().contains("watch ended"));
}
