use bittorrent_starter_rust::bencode_format::{BencodeValue, ParseError};
use bittorrent_starter_rust::error::TorrentError;
use bittorrent_starter_rust::torrent_file::MetaInfoFile;

#[test]
fn test_error_test_derive() {
    // Debug
    assert_eq!(
        format!("{:?}", TorrentError::Http("foo".to_string())),
        "Http(\"foo\")"
    );

    // User-facing message
    assert_eq!(TorrentError::Http("foo".to_string()).message(), "HTTP: foo");
}

#[test]
fn test_error_messages() {
    assert_eq!(TorrentError::Io("x".to_string()).message(), "I/O: x");
    assert_eq!(TorrentError::Bencode("y".to_string()).message(), "Bencode: y");
    assert_eq!(TorrentError::Json("z".to_string()).message(), "JSON: z");
    assert_eq!(TorrentError::InvalidMessageId.message(), "Invalid message ID");
    assert_eq!(
        TorrentError::InvalidMessageSize.message(),
        "Invalid message size"
    );
    assert_eq!(TorrentError::BadPieceIndex.message(), "Received bad piece ID");
    assert_eq!(TorrentError::Shape("s".to_string()).message(), "Shape: s");
    assert_eq!(
        TorrentError::Integrity(7).message(),
        "Integrity: bad hash for piece 7"
    );
}

#[test]
fn test_bencode_error_message_carries_parse_text() {
    let e = ParseError::new("foo");
    let t = TorrentError::Bencode(e.message());
    assert_eq!(t.message(), "Bencode: Bencode parse error: foo");
}

#[test]
fn test_shape_error_from_malformed_metadata() {
    let v = BencodeValue::parse(b"i5e").unwrap().1;
    let r = MetaInfoFile::from_bencode(&v);
    assert!(matches!(r, Err(TorrentError::Shape(_))));
}
