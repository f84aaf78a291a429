//! The one key the config file holds.
use msg::daemon::config::{disabled_message, read_config};

fn send_of(contents: &str) -> bool {
    read_config(Some(contents)).send
}

#[test]
fn is_off_when_the_file_does_not_exist() {
    assert!(!read_config(None).send);
}

#[test]
fn is_off_when_the_file_exists_but_says_nothing() {
    assert!(!send_of("# nothing here\n"));
}

#[test]
fn reads_send_true_and_false() {
    assert!(send_of("send = true\n"));
    assert!(!send_of("send = false\n"));
}

#[test]
fn tolerates_whitespace_comments_and_unrelated_keys() {
    assert!(send_of(
        "# a comment\nnames = false\n\n   send   =   true   # yes\n"
    ));
}

#[test]
fn does_not_treat_a_lookalike_key_as_the_switch() {
    assert!(!send_of("sendmail = true\n"));
    assert!(!send_of("resend = true\n"));
}

#[test]
fn refuses_anything_that_is_not_a_bare_boolean() {
    assert!(!send_of("send = \"true\"\n"));
    assert!(!send_of("send = 1\n"));
    assert!(!send_of("send = truthy\n"));
}

#[test]
fn takes_the_first_line_that_says_anything() {
    assert!(!send_of("send = false\nsend = true\n"));
}

#[test]
fn survives_carriage_returns() {
    assert!(send_of("send = true\r\n"));
}

#[test]
fn the_refusal_names_the_key_and_the_file() {
    let message = disabled_message("/tmp/config.toml");
    assert!(message.contains("Add `send = true` to /tmp/config.toml to enable it."), "{message}");
    assert!(message.starts_with("sending is disabled.\n"), "{message}");
}
