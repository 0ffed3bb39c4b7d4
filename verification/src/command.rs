//! The command surface of the command-line client: what a parsed invocation
//! asks for, and the wire request it becomes.

use vstd::prelude::*;

use vstd::string::StrSliceExecFns;
use vstd::utf8::encode_utf8;

use crate::wire::{ReqV, Request};

verus! {

/// One command of the command-line client.
#[derive(Debug, Clone, PartialEq, Eq)]
pub enum Command {
    /// Set the value of a key.
    Put { key: String, value: String },
    /// Get the value of a key.
    Get { key: String },
    /// Delete a key.
    Rm { key: String },
}

/// The request a command sends over the wire: keys and values travel as
/// their UTF-8 bytes.
pub fn request_of(cmd: &Command) -> (r: Request)
    ensures
        r@ == match cmd {
            Command::Put { key, value } => (ReqV::Put {
                key: encode_utf8(key@),
                value: encode_utf8(value@),
            }),
            Command::Get { key } => (ReqV::Get { key: encode_utf8(key@) }),
            Command::Rm { key } => (ReqV::Remove { key: encode_utf8(key@) }),
        },
{
    match cmd {
        Command::Put { key, value } => Request::Put {
            key: key.as_str().as_bytes_vec(),
            value: value.as_str().as_bytes_vec(),
        },
        Command::Get { key } => Request::Get { key: key.as_str().as_bytes_vec() },
        Command::Rm { key } => Request::Remove { key: key.as_str().as_bytes_vec() },
    }
}

} // verus!
