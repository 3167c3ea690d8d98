//! What the server does with the bytes a client has sent so far: wait for
//! more, answer an error, or pass a command on to the store.
use vstd::prelude::*;
use vstd::utf8::{decode_utf8, valid_utf8};
use crate::parser::{command_result_view, parse_command, parse_named, parse_parts};
use crate::text::ascii_upper_text;
use crate::protocol::{Command, Response, ResponseView};
use crate::resp::{read_command, request_at};

verus! {

/// The next thing to do for a client.
pub enum ClientStep {
    /// The request is not complete yet: read more bytes.
    NeedMore,
    /// The request cannot be read: answer this error and close the
    /// connection.
    Fail { response: Response },
    /// The request names no valid command: answer this error, drop the
    /// request's bytes, and go on.
    Reject { response: Response, consumed: usize },
    /// Carry out this command, and drop the request's bytes.
    Forward { command: Command, consumed: usize },
}

/// The next thing to do for a client whose unread bytes are `input`;
/// `at_eof` says whether the client has closed its side.
pub fn next_client_step(input: &[u8], at_eof: bool) -> (r: ClientStep)
    ensures
        match request_at(input@, at_eof) {
            None => r is NeedMore,
            Some(Err(e)) => r matches ClientStep::Fail { response } && response@ == ResponseView::Error(e),
            Some(Ok((parts, n))) => match parse_parts(parts) {
                Err(e) => r matches ClientStep::Reject { response, consumed } && response@
                    == ResponseView::Error(e) && consumed == n,
                Ok(c) => r matches ClientStep::Forward { command, consumed } && command@ == c
                    && consumed == n,
            },
        },
        match request_at(input@, at_eof) {
            Some(Ok((parts, n))) => (parts.len() > 0 && valid_utf8(parts[0])) ==> match parse_named(
                ascii_upper_text(decode_utf8(parts[0])),
                parts,
            ) {
                Err(e) => r matches ClientStep::Reject { response, consumed } && response@
                    == ResponseView::Error(e) && consumed == n,
                Ok(c) => r matches ClientStep::Forward { command, consumed } && command@ == c
                    && consumed == n,
            },
            _ => true,
        },
        r matches ClientStep::Reject { consumed, .. } ==> 0 < consumed <= input@.len(),
        r matches ClientStep::Forward { consumed, .. } ==> 0 < consumed <= input@.len(),
{
    match read_command(input, at_eof) {
        None => ClientStep::NeedMore,
        Some(Err(e)) => ClientStep::Fail { response: Response::Error(e) },
        Some(Ok((parts, n))) => {
            let parsed = parse_command(&parts);
            assert(command_result_view(parsed) == parse_parts(crate::parser::parts_view(parts@)));
            match parsed {
                Ok(command) => ClientStep::Forward { command, consumed: n },
                Err(e) => ClientStep::Reject { response: Response::Error(e), consumed: n },
            }
        },
    }
}

} // verus!
