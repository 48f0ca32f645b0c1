//! The messages that connections publish to the status stream.
use vstd::prelude::*;

verus! {

/// A message on the status channel: a request for a key, or a value that a
/// connected server reported for the server entry `config_index`.
#[derive(Clone, Debug, PartialEq, Eq)]
pub enum CommandMessage {
    Get { key: String },
    SetValue { config_index: i32, key: String, val: Vec<u8> },
}

} // verus!
