use bittorrent_starter_rust::bencode_format::BencodeValue;
use bittorrent_starter_rust::error::TorrentError;
use bittorrent_starter_rust::torrent_file::{InfoSingleFile, MetaInfoFile};
use bittorrent_starter_rust::trackers::{query_url, PeerEndpoint, TrackerResponse};

#[test]
fn test_response_derive() {
    let response = TrackerResponse {
        interval: 60,
        peers: vec![
            // IP 1
            127, 0, 0, 1, 86, 20, // IP 2
            255, 10, 10, 36, 38, 42,
        ],
    };

    // Debug
    assert_eq!(
        format!("{response:?}"),
        "TrackerResponse { interval: 60, peers: [127, 0, 0, 1, 86, 20, 255, 10, 10, 36, 38, 42] }"
    );
}

#[test]
fn test_peers_valid() {
    let response = TrackerResponse {
        interval: 60,
        peers: vec![
            // IP 1
            127, 0, 0, 1, 86, 20, // IP 2
            255, 10, 10, 36, 38, 42,
        ],
    };

    assert_eq!(
        response.peer_addrs(),
        vec![
            PeerEndpoint { ip: [127, 0, 0, 1], port: (86 << 8) + 20 },
            PeerEndpoint { ip: [255, 10, 10, 36], port: (38 << 8) + 42 },
        ]
    );
}

#[test]
fn test_response_from_bencode() {
    let mut doc: Vec<u8> = Vec::new();
    doc.extend_from_slice(b"d8:intervali60e5:peers6:");
    doc.extend_from_slice(&[127, 0, 0, 1, 86, 20]);
    doc.extend_from_slice(b"e");
    let (_, v) = BencodeValue::parse(&doc).unwrap();
    let t = TrackerResponse::from_bencode(&v).unwrap();
    assert_eq!(t.interval, 60);
    assert_eq!(t.peers, vec![127, 0, 0, 1, 86, 20]);

    // A missing peer list means an empty one.
    let (_, v) = BencodeValue::parse(b"d8:intervali30ee").unwrap();
    let t = TrackerResponse::from_bencode(&v).unwrap();
    assert_eq!(t.interval, 30);
    assert_eq!(t.peers, Vec::<u8>::new());

    // A missing interval is a shape error.
    let (_, v) = BencodeValue::parse(b"de").unwrap();
    assert!(matches!(
        TrackerResponse::from_bencode(&v),
        Err(TorrentError::Shape(_))
    ));
}

#[test]
fn test_query_url() {
    let meta = MetaInfoFile {
        announce: "http://t".to_string(),
        info: InfoSingleFile {
            name: "test.txt".to_string(),
            length: 296,
            piece_length: 312,
            pieces: vec![0u8; 20],
        },
        created_by: None,
        comment: None,
    };
    let peer_id: [u8; 20] = *b"AL-20231215-1.0.0.00";
    let url = query_url(&meta, &peer_id, 6881);
    let expected_hash = meta.info.info_hash();
    let mut escaped = String::new();
    for i in 0..20 {
        escaped.push('%');
        escaped.push_str(&expected_hash[2 * i..2 * i + 2]);
    }
    let mut expected = format!("http://t?info_hash={escaped}&left=296&peer_id=");
    for b in peer_id.iter() {
        expected.push_str(&format!("%{b:02x}"));
    }
    expected.push_str("&port=6881&uploaded=0&downloaded=0&compact=1");
    assert_eq!(url, expected);
}
