//! The failure of a subprocess whose exit code is passed on to the user.

use crate::text::integer_text;
use crate::text::signed_decimal;
use vstd::prelude::*;

verus! {

/// A subprocess failed; its exit code (if it had one) should become the exit
/// code of env-select
#[derive(Clone, Copy, Debug, PartialEq, Eq, Structural)]
pub struct ExitCodeError(pub Option<i32>);

impl ExitCodeError {
    /// The error message
    pub fn message(&self) -> (r: String)
        ensures
            r@ == "process failed with exit code: "@ + match self.0 {
                Some(code) => signed_decimal(code as int),
                None => "none"@,
            },
    {
        let mut s = "process failed with exit code: ".to_string();
        match self.0 {
            Some(code) => s.append(integer_text(code).as_str()),
            None => s.append("none"),
        }
        s
    }

    /// The exit code to pass on: the subprocess's own where it fits in a
    /// byte, none (a generic failure) otherwise
    pub fn exit_code(&self) -> (r: Option<u8>)
        ensures
            r == match self.0 {
                Some(code) => if 0 <= code <= 255 { Some(code as u8) } else { None },
                None => None,
            },
    {
        match self.0 {
            Some(code) => if 0 <= code && code <= 255 {
                Some(code as u8)
            } else {
                None
            },
            None => None,
        }
    }
}


/// The message for a command whose output was needed but which failed:
/// `<command> failed with exit code <code>`, the code being `unknown` when
/// the process had none
pub fn command_failure_message(command: &str, code: Option<i32>) -> (r: String)
    ensures
        r@ == command@ + " failed with exit code "@ + match code {
            Some(c) => signed_decimal(c as int),
            None => "unknown"@,
        },
{
    let mut s = command.to_string();
    s.append(" failed with exit code ");
    match code {
        Some(c) => s.append(integer_text(c).as_str()),
        None => s.append("unknown"),
    }
    s
}

} // verus!
