//! The error taxonomy of the library.
use vstd::prelude::*;

use crate::digits::dec_chars;

verus! {

/// Failure of a torrent operation.
#[derive(Debug)]
pub enum TorrentError {
    /// The tracker request failed; carries the transport error's text.
    Http(String),
    /// Stream or file input/output failed; carries the error's text.
    Io(String),
    /// Malformed bencode data; carries the parse error's message.
    Bencode(String),
    /// A malformed decoded value; carries the decode error's text.
    Json(String),
    /// A peer sent a message ID outside the protocol's range.
    InvalidMessageId,
    /// A fixed-size message arrived under the wrong declared frame length.
    InvalidMessageSize,
    /// A Piece message for an index other than the requested piece.
    BadPieceIndex,
    /// Metadata or a tracker reply whose shape does not match the expected
    /// dictionary.
    Shape(String),
    /// A reassembled piece failed digest verification; carries the piece
    /// index.
    Integrity(u32),
}

/// The message text of an error.
pub open spec fn error_text(e: TorrentError) -> Seq<char> {
    match e {
        TorrentError::Http(m) => "HTTP: "@ + m@,
        TorrentError::Io(m) => "I/O: "@ + m@,
        TorrentError::Bencode(m) => "Bencode: "@ + m@,
        TorrentError::Json(m) => "JSON: "@ + m@,
        TorrentError::InvalidMessageId => "Invalid message ID"@,
        TorrentError::InvalidMessageSize => "Invalid message size"@,
        TorrentError::BadPieceIndex => "Received bad piece ID"@,
        TorrentError::Shape(m) => "Shape: "@ + m@,
        TorrentError::Integrity(ix) => "Integrity: bad hash for piece "@ + dec_chars(ix as nat),
    }
}

impl TorrentError {
    /// The message as shown to a user.
    pub fn message(&self) -> (r: String)
        ensures
            r@ == error_text(*self),
    {
        let mut s = String::new();
        match self {
            TorrentError::Http(m) => {
                s.append("HTTP: ");
                s.append(m.as_str());
            },
            TorrentError::Io(m) => {
                s.append("I/O: ");
                s.append(m.as_str());
            },
            TorrentError::Bencode(m) => {
                s.append("Bencode: ");
                s.append(m.as_str());
            },
            TorrentError::Json(m) => {
                s.append("JSON: ");
                s.append(m.as_str());
            },
            TorrentError::InvalidMessageId => {
                s.append("Invalid message ID");
            },
            TorrentError::InvalidMessageSize => {
                s.append("Invalid message size");
            },
            TorrentError::BadPieceIndex => {
                s.append("Received bad piece ID");
            },
            TorrentError::Shape(m) => {
                s.append("Shape: ");
                s.append(m.as_str());
            },
            TorrentError::Integrity(ix) => {
                s.append("Integrity: bad hash for piece ");
                crate::digits::push_dec_str(&mut s, *ix as u64);
            },
        }
        s
    }
}

} // verus!
