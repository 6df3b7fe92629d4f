use bittorrent_starter_rust::bencode_format::BencodeValue;
use bittorrent_starter_rust::error::TorrentError;
use bittorrent_starter_rust::torrent_file::{InfoSingleFile, MetaInfoFile};

const TEST_PIECES: [u8; 60] = [
    239, 191, 189, 118, 239, 191, 189, 122, 42, 239, 191, 189, 239, 191, 189, 239, 191, 189, 239,
    191, 189, 107, 19, 103, 38, 239, 191, 189, 15, 239, 191, 189, 239, 191, 189, 3, 2, 45, 110, 34,
    117, 239, 191, 189, 4, 239, 191, 189, 118, 102, 86, 115, 110, 239, 191, 189, 239, 191, 189, 16,
];

#[test]
fn test_torrent_file_test_derive() {
    let meta_info = MetaInfoFile {
        announce: "http://test.torrent.com".to_string(),
        info: InfoSingleFile {
            name: "test.txt".to_string(),
            length: 296,
            piece_length: 312,
            pieces: vec![1, 2, 3, 4, 5, 6, 7, 8, 9, 10, 11, 12, 13, 14, 15, 16, 17, 18, 19, 20],
        },
        created_by: None,
        comment: None,
    };

    // Debug
    assert_eq!(format!("{meta_info:?}"), "MetaInfoFile { announce: \"http://test.torrent.com\", info: InfoSingleFile { name: \"test.txt\", length: 296, piece_length: 312, pieces: [1, 2, 3, 4, 5, 6, 7, 8, 9, 10, 11, 12, 13, 14, 15, 16, 17, 18, 19, 20] }, created_by: None, comment: None }");
}

#[test]
fn test_info_hash() {
    let info = InfoSingleFile {
        name: "test.txt".to_string(),
        length: 296,
        piece_length: 312,
        pieces: TEST_PIECES.to_vec(),
    };

    assert_eq!(info.info_hash(), "a8d8cc6ac9e649158452dee9800c15571c491656");
}

#[test]
fn test_pieces_hashes() {
    let info = InfoSingleFile {
        name: "test.txt".to_string(),
        length: 296,
        piece_length: 312,
        pieces: TEST_PIECES.to_vec(),
    };

    assert_eq!(info.pieces_count(), 3);
    assert_eq!(
        info.pieces_hashes(),
        vec![
            "efbfbd76efbfbd7a2aefbfbdefbfbdefbfbdefbf",
            "bd6b136726efbfbd0fefbfbdefbfbd03022d6e22",
            "75efbfbd04efbfbd766656736eefbfbdefbfbd10"
        ]
    );
}

#[test]
fn test_from_bencode_full_metadata() {
    // announce "http://t", info { name "a.txt", length 296, piece length 312,
    // pieces: twenty raw bytes }, comment "hi".
    let mut doc: Vec<u8> = Vec::new();
    doc.extend_from_slice(b"d8:announce8:http://t7:comment2:hi4:infod6:lengthi296e4:name5:a.txt12:piece lengthi312e6:pieces20:");
    doc.extend_from_slice(&[7u8; 20]);
    doc.extend_from_slice(b"ee");
    let (rem, v) = BencodeValue::parse(&doc).unwrap();
    assert_eq!(rem.len(), 0);
    let meta = MetaInfoFile::from_bencode(&v).unwrap();
    assert_eq!(meta.announce, "http://t");
    assert_eq!(meta.comment.as_deref(), Some("hi"));
    assert_eq!(meta.created_by, None);
    assert_eq!(meta.info.name, "a.txt");
    assert_eq!(meta.info.length, 296);
    assert_eq!(meta.info.piece_length, 312);
    assert_eq!(meta.info.pieces, vec![7u8; 20]);
}

#[test]
fn test_from_bencode_keeps_pieces_raw_and_names_lossy() {
    // The pieces blob keeps its raw non-UTF8 bytes; the name, a text field,
    // is converted lossily.
    let mut doc: Vec<u8> = Vec::new();
    doc.extend_from_slice(b"d8:announce3:url4:infod6:lengthi1e4:name1:");
    doc.push(0xFF);
    doc.extend_from_slice(b"12:piece lengthi1e6:pieces20:");
    doc.extend_from_slice(&[0xFFu8; 20]);
    doc.extend_from_slice(b"ee");
    let (_, v) = BencodeValue::parse(&doc).unwrap();
    let meta = MetaInfoFile::from_bencode(&v).unwrap();
    assert_eq!(meta.info.pieces, vec![0xFFu8; 20]);
    assert_eq!(meta.info.name, "\u{FFFD}");
}

#[test]
fn test_from_bencode_missing_info_is_shape_error() {
    let (_, v) = BencodeValue::parse(b"d8:announce3:urle").unwrap();
    assert!(matches!(
        MetaInfoFile::from_bencode(&v),
        Err(TorrentError::Shape(_))
    ));
}

#[test]
fn test_from_bencode_negative_length_is_shape_error() {
    let (_, v) = BencodeValue::parse(
        b"d8:announce3:url4:infod6:lengthi-1e4:name1:a12:piece lengthi1e6:pieces0:ee",
    )
    .unwrap();
    assert!(matches!(
        MetaInfoFile::from_bencode(&v),
        Err(TorrentError::Shape(_))
    ));
}
