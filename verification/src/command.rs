//! What the `get`, `call` and `serve` commands compute around their I/O.
use vstd::prelude::*;
use vstd::string::StringExecFns;

use crate::text::{decimal, from_utf8_lossy, push_decimal, utf8_lossy};

verus! {

/// The line printed for a fetched response body: the body decoded as UTF-8, invalid
/// sequences replaced.
pub fn response_body_message(contents: &[u8]) -> (m: String)
    ensures
        m@ == "Response body: "@ + utf8_lossy(contents@),
{
    let text = from_utf8_lossy(contents);
    let mut m = String::new();
    m.append("Response body: ");
    m.append(text.as_str());
    m
}

/// What a shell command's outcome prints: a line and whether it goes to standard
/// error.
pub struct CommandReport {
    pub to_stderr: bool,
    pub text: String,
}

/// The report of a finished shell command: its standard output when it succeeded,
/// else its standard error (on standard error).
pub fn command_report(success: bool, stdout: &[u8], stderr: &[u8]) -> (r: CommandReport)
    ensures
        r.to_stderr == !success,
        success ==> r.text@ == "Command output: "@ + utf8_lossy(stdout@),
        !success ==> r.text@ == "Command error: "@ + utf8_lossy(stderr@),
{
    let mut text = String::new();
    if success {
        text.append("Command output: ");
        let out = from_utf8_lossy(stdout);
        text.append(out.as_str());
    } else {
        text.append("Command error: ");
        let err = from_utf8_lossy(stderr);
        text.append(err.as_str());
    }
    CommandReport { to_stderr: !success, text }
}

/// The address the HTTP server listens on: the loopback address with the port.
pub fn listen_address(port: u16) -> (a: String)
    ensures
        a@ == "127.0.0.1:"@ + decimal(port as nat),
{
    let mut a = String::new();
    a.append("127.0.0.1:");
    push_decimal(&mut a, port as u64);
    a
}

} // verus!
