use bittorrent_starter_rust::download::{piece_size, PieceDownload};
use bittorrent_starter_rust::error::TorrentError;
use bittorrent_starter_rust::peers::PeerMessage;
use bittorrent_starter_rust::utils::hash_sha1;

#[test]
fn test_piece_plan_two_pieces() {
    // pieceLength 16384 and totalLength 20000 cut into exactly two pieces:
    // piece 0 of 16384 bytes, piece 1 of the remaining 3616, one block each.
    assert_eq!(piece_size(16384, 20000, 0), 16384);
    assert_eq!(piece_size(16384, 20000, 1), 3616);
    assert_eq!(piece_size(16384, 20000, 2), 0);

    let d0 = PieceDownload::new(16384, 20000, 0);
    let reqs0 = d0.request_messages();
    assert_eq!(reqs0.len(), 1);
    assert_eq!(
        reqs0[0],
        PeerMessage::Request {
            index: 0,
            begin: 0,
            length: 16384
        }
    );

    let d1 = PieceDownload::new(16384, 20000, 1);
    let reqs1 = d1.request_messages();
    assert_eq!(reqs1.len(), 1);
    assert_eq!(
        reqs1[0],
        PeerMessage::Request {
            index: 1,
            begin: 0,
            length: 3616
        }
    );
}

#[test]
fn test_block_plan_splits_and_caps() {
    let d = PieceDownload::new(40000, 100000, 0);
    let reqs = d.request_messages();
    assert_eq!(reqs.len(), 3);
    assert_eq!(
        reqs[0],
        PeerMessage::Request { index: 0, begin: 0, length: 16384 }
    );
    assert_eq!(
        reqs[1],
        PeerMessage::Request { index: 0, begin: 16384, length: 16384 }
    );
    assert_eq!(
        reqs[2],
        PeerMessage::Request { index: 0, begin: 32768, length: 7232 }
    );
}

fn feed(d: &mut PieceDownload, begin: u32, block: &[u8]) {
    let accepted = d
        .on_message(PeerMessage::Piece {
            index: d.piece_index,
            begin,
            block: block.to_vec(),
        })
        .unwrap();
    assert!(accepted);
}

#[test]
fn test_out_of_order_reassembly_matches_in_order_bytes() {
    // Three blocks arrive out of request order; reassembly must equal their
    // in-order concatenation and pass verification against its digest.
    let content: Vec<u8> = (0..300u32).map(|i| (i % 251) as u8).collect();
    let expected = hash_sha1(&content);

    let mut d = PieceDownload {
        piece_index: 4,
        piece_len: 300,
        chunks: Vec::new(),
    };
    feed(&mut d, 200, &content[200..300]);
    feed(&mut d, 0, &content[0..100]);
    feed(&mut d, 100, &content[100..200]);

    let bytes = d.finish(&expected).unwrap();
    assert_eq!(bytes, content);
}

#[test]
fn test_flipped_byte_fails_verification() {
    let content: Vec<u8> = (0..300u32).map(|i| (i % 251) as u8).collect();
    let expected = hash_sha1(&content);

    let mut corrupted = content.clone();
    corrupted[123] ^= 1;
    let mut d = PieceDownload {
        piece_index: 4,
        piece_len: 300,
        chunks: Vec::new(),
    };
    feed(&mut d, 0, &corrupted);
    assert!(matches!(d.finish(&expected), Err(TorrentError::Integrity(4))));
}

#[test]
fn test_wrong_piece_length_fails_verification() {
    let content: Vec<u8> = vec![1, 2, 3];
    let expected = hash_sha1(&content);
    let mut d = PieceDownload {
        piece_index: 9,
        piece_len: 4,
        chunks: Vec::new(),
    };
    feed(&mut d, 0, &content);
    assert!(matches!(d.finish(&expected), Err(TorrentError::Integrity(9))));
}

#[test]
fn test_piece_for_other_index_is_fatal() {
    let mut d = PieceDownload {
        piece_index: 1,
        piece_len: 3,
        chunks: Vec::new(),
    };
    let r = d.on_message(PeerMessage::Piece {
        index: 2,
        begin: 0,
        block: vec![0, 0, 0],
    });
    assert!(matches!(r, Err(TorrentError::BadPieceIndex)));
}

#[test]
fn test_non_piece_messages_are_skipped() {
    let mut d = PieceDownload {
        piece_index: 1,
        piece_len: 3,
        chunks: Vec::new(),
    };
    assert_eq!(d.on_message(PeerMessage::Choke).unwrap(), false);
    assert_eq!(d.on_message(PeerMessage::Have(7)).unwrap(), false);
    assert!(!d.is_complete());
    feed(&mut d, 0, &[5, 6, 7]);
    assert!(d.is_complete());
}
