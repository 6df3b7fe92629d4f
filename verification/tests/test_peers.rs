use bittorrent_starter_rust::error::TorrentError;
use bittorrent_starter_rust::peers::{
    build_handshake, preamble_step, remote_peer_id, u32_from_be, InvalidMessageId, PeerMessage,
    PeerMessageId, PreambleState,
};

#[test]
fn test_peer_message_derive() {
    // Debug
    assert_eq!(format!("{:?}", PeerMessage::Choke), "Choke");

    // PartialEq + Eq
    assert_eq!(PeerMessage::Choke, PeerMessage::Choke);
    assert_ne!(PeerMessage::Choke, PeerMessage::Interested);
}

fn check_rw(buf: &[u8], expected: PeerMessage) {
    // Check decode: the frame body follows the four-byte length prefix.
    let size = u32_from_be(&buf[0..4]) as usize;
    assert_eq!(buf.len(), 4 + size);
    let msg = PeerMessage::decode(&buf[4..]).unwrap().unwrap();
    assert_eq!(msg, expected);

    // Check encode
    let encoded = msg.encode();
    assert_eq!(encoded, buf);
}

#[test]
fn test_peer_message_rw() {
    // Basic message
    check_rw(&[0, 0, 0, 1, 0], PeerMessage::Choke);
    check_rw(&[0, 0, 0, 1, 1], PeerMessage::Unchoke);
    check_rw(&[0, 0, 0, 1, 2], PeerMessage::Interested);
    check_rw(&[0, 0, 0, 1, 3], PeerMessage::NotInterested);

    // Have
    check_rw(&[0, 0, 0, 5, 4, 0, 0, 0, 42], PeerMessage::Have(42));

    // Bit fields
    check_rw(&[0, 0, 0, 1, 5], PeerMessage::BitField(vec![]));
    check_rw(&[0, 0, 0, 3, 5, 86, 72], PeerMessage::BitField(vec![86, 72]));
    check_rw(
        &[0, 0, 0, 4, 5, 86, 72, 2],
        PeerMessage::BitField(vec![86, 72, 2]),
    );

    // Request
    check_rw(
        &[0, 0, 0, 13, 6, 0, 0, 0, 42, 0, 0, 0, 43, 0, 0, 0, 44],
        PeerMessage::Request {
            index: 42,
            begin: 43,
            length: 44,
        },
    );

    // Piece
    check_rw(
        &[0, 0, 0, 12, 7, 0, 0, 0, 41, 0, 0, 0, 63, 14, 15, 16],
        PeerMessage::Piece {
            index: 41,
            begin: 63,
            block: vec![14, 15, 16],
        },
    );

    // Zero-length piece block
    check_rw(
        &[0, 0, 0, 9, 7, 0, 0, 0, 41, 0, 0, 0, 63],
        PeerMessage::Piece {
            index: 41,
            begin: 63,
            block: vec![],
        },
    );

    // Cancel
    check_rw(
        &[0, 0, 0, 13, 8, 0, 0, 0, 42, 0, 0, 0, 43, 0, 0, 0, 44],
        PeerMessage::Cancel {
            index: 42,
            begin: 43,
            length: 44,
        },
    );
}

#[test]
fn test_unknown_message_id_is_an_error() {
    // ID 9 is outside the protocol: an error, never a crash or a skip.
    let r = PeerMessage::decode(&[9, 0, 0, 0, 0]);
    assert!(matches!(r, Err(TorrentError::InvalidMessageId)));
    assert!(matches!(
        PeerMessageId::from_code(9),
        Err(InvalidMessageId)
    ));
    assert_eq!(PeerMessageId::from_code(7), Ok(PeerMessageId::Piece));
    assert_eq!(PeerMessageId::Piece.code(), 7);
}

#[test]
fn test_wrong_fixed_size_is_an_error() {
    // A Choke frame must have length 1; a Piece frame needs its 8 header bytes.
    assert!(matches!(
        PeerMessage::decode(&[0, 1]),
        Err(TorrentError::InvalidMessageSize)
    ));
    assert!(matches!(
        PeerMessage::decode(&[4, 0, 0, 0]),
        Err(TorrentError::InvalidMessageSize)
    ));
    assert!(matches!(
        PeerMessage::decode(&[7, 0, 0, 0, 1]),
        Err(TorrentError::InvalidMessageSize)
    ));
}

#[test]
fn test_keep_alive_frame() {
    // The zero-length frame is the keep-alive: explicitly not a message.
    assert!(matches!(PeerMessage::decode(&[]), Ok(None)));
}

#[test]
fn test_handshake_layout() {
    let info_hash: [u8; 20] = [9; 20];
    let peer_id: [u8; 20] = *b"AL-20231215-1.0.0.00";
    let hs = build_handshake(&info_hash, &peer_id);
    assert_eq!(hs.len(), 68);
    assert_eq!(hs[0], 19);
    assert_eq!(&hs[1..20], b"BitTorrent protocol");
    assert_eq!(&hs[20..28], &[0u8; 8]);
    assert_eq!(&hs[28..48], &info_hash);
    assert_eq!(&hs[48..68], &peer_id);

    // The remote identifier is read back from the same window of the reply.
    let remote = remote_peer_id(&hs);
    assert_eq!(remote, peer_id.to_vec());
}

#[test]
fn test_preamble_steps() {
    // The first message must be the BitField.
    assert_eq!(
        preamble_step(PreambleState::AwaitBitField, &PeerMessage::Choke),
        None
    );
    let s = preamble_step(
        PreambleState::AwaitBitField,
        &PeerMessage::BitField(vec![255]),
    )
    .unwrap();
    assert_eq!(s, PreambleState::AwaitUnchoke);
    // Everything but Unchoke is skipped while waiting.
    let s = preamble_step(s, &PeerMessage::Have(3)).unwrap();
    assert_eq!(s, PreambleState::AwaitUnchoke);
    let s = preamble_step(s, &PeerMessage::Unchoke).unwrap();
    assert_eq!(s, PreambleState::Ready);
}
