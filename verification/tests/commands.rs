use example_cli::command::{command_report, listen_address, response_body_message};
use example_cli::serve::greeting;

#[test]
fn body_message_of_valid_utf8() {
    assert_eq!(response_body_message(b"hi there"), "Response body: hi there");
    assert_eq!(response_body_message("ünïcode".as_bytes()), "Response body: ünïcode");
}

#[test]
fn body_message_replaces_invalid_sequences() {
    assert_eq!(response_body_message(&[b'a', 0xff, b'b']), "Response body: a\u{fffd}b");
}

#[test]
fn command_success_reports_stdout() {
    let r = command_report(true, b"out\n", b"err\n");
    assert!(!r.to_stderr);
    assert_eq!(r.text, "Command output: out\n");
}

#[test]
fn command_failure_reports_stderr() {
    let r = command_report(false, b"out\n", b"boom");
    assert!(r.to_stderr);
    assert_eq!(r.text, "Command error: boom");
}

#[test]
fn listen_address_holds_the_port() {
    assert_eq!(listen_address(8080), "127.0.0.1:8080");
    assert_eq!(listen_address(0), "127.0.0.1:0");
    assert_eq!(listen_address(65535), "127.0.0.1:65535");
}

#[test]
fn greeting_names_the_caller() {
    assert_eq!(greeting("world"), "Hello, world!\n");
    assert_eq!(greeting(""), "Hello, !\n");
}
