use vstd::prelude::*;
use vstd::string::StringSliceAdditionalSpecFns;
use crate::value::bytes_equal;
use crate::text::string_concat;

verus! {

/// What the command line asks for.
#[derive(Debug, Clone, Copy, PartialEq, Eq, Structural)]
pub enum Commands {
    /// Decode a literal and show it as JSON.
    Decode,
    /// Describe a metainfo file.
    Info,
    /// Ask the tracker of a metainfo file for peers.
    Peers,
}

/// The command a name stands for: `decode`, `info` or `peers`.
pub open spec fn command_named(name: Seq<u8>) -> Option<Commands> {
    if name == seq![100u8, 101, 99, 111, 100, 101] {
        Some(Commands::Decode)
    } else if name == seq![105u8, 110, 102, 111] {
        Some(Commands::Info)
    } else if name == seq![112u8, 101, 101, 114, 115] {
        Some(Commands::Peers)
    } else {
        None
    }
}

impl Commands {
    /// The command called `command`; any other name gives the error text
    /// `Invalid command <name>`.
    pub fn from_str(command: &str) -> (r: Result<Commands, String>)
        ensures
            match command_named(command.spec_bytes()) {
                Some(c) => r == Ok::<Commands, String>(c),
                None => r matches Err(e) && e@ == "Invalid command "@ + command@,
            },
    {
        let name = command.as_bytes();
        let decode: Vec<u8> = vec![100u8, 101, 99, 111, 100, 101];
        let info: Vec<u8> = vec![105u8, 110, 102, 111];
        let peers: Vec<u8> = vec![112u8, 101, 101, 114, 115];
        if bytes_equal(name, decode.as_slice()) {
            Ok(Commands::Decode)
        } else if bytes_equal(name, info.as_slice()) {
            Ok(Commands::Info)
        } else if bytes_equal(name, peers.as_slice()) {
            Ok(Commands::Peers)
        } else {
            Err(string_concat("Invalid command ".to_owned(), command))
        }
    }
}

} // verus!
