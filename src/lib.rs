//! Client side of the language server protocol: offset conversion between
//! character indices and protocol positions, the conversion of edit
//! operations into sequential change events, progress tracking, the registry of
//! connections and the capability-gated decisions of one connection.
use vstd::prelude::*;

pub mod assoc;
pub mod changeset;
pub mod client;
pub mod editor;
pub mod framing;
pub mod lsp;
pub mod message;
pub mod position;
pub mod progress;
pub mod registry;
pub mod selection;
pub mod text;
pub mod util;

verus! {

/// What can go wrong in talking to a language server.
#[derive(Debug)]
pub enum Error {
    /// The server answered with a protocol error: its code and message.
    Rpc { code: i64, message: String },
    /// A payload could not be parsed; the parser's message.
    Parse(String),
    /// The transport or the process failed; the system's message.
    IO(String),
    /// No response came in time; the connection stays usable.
    Timeout,
    /// The stream is closed or the connection shut down; it is no longer usable.
    StreamClosed,
    /// No language server is configured for the language.
    LspNotDefined,
    /// The initialization handshake has not completed.
    NotInitialized,
    /// Any other failure, described.
    Other(String),
}

pub type Result<T> = core::result::Result<T, Error>;

/// The unit in which a connection counts columns on the wire.
#[derive(Clone, Copy, Debug, PartialEq, Eq, Structural)]
pub enum OffsetEncoding {
    /// UTF-8 code units, that is bytes.
    Utf8,
    /// UTF-16 code units.
    Utf16,
}

} // verus!
