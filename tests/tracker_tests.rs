use torrent_crab::tracker::{Tracker, TrackerEvent, TrackerRequest};
use torrent_crab::Error;

#[test]
fn test_parse_compact_peers() {
    let data = vec![
        192, 168, 1, 1, 0x1A, 0xE1, // 6881 = 0x1AE1
        192, 168, 1, 2, 0x1A, 0xE2, // 6882 = 0x1AE2
    ];

    let peers = Tracker::parse_compact_peers(&data).unwrap();
    assert_eq!(peers.len(), 2);
    assert_eq!(peers[0].port(), 6881);
    assert_eq!(peers[1].port(), 6882);
}

#[test]
fn test_url_encode_bytes() {
    let bytes = [0x12, 0x34, 0xAB, 0xCD];
    let encoded = Tracker::url_encode_bytes(&bytes);
    assert_eq!(encoded, "%12%34%ab%cd");
}

#[test]
fn test_tracker_url_building() {
    let info_hash = [1u8; 20];
    let peer_id = [2u8; 20];

    let request = TrackerRequest::new_started(info_hash, peer_id, 6881, 1000000);

    assert_eq!(request.port, 6881);
    assert_eq!(request.left, 1000000);
    assert!(request.compact);
}

#[test]
fn compact_peers_addresses_in_order() {
    let data = vec![192, 168, 1, 1, 0x1A, 0xE1, 192, 168, 1, 2, 0x1A, 0xE2];
    let peers = Tracker::parse_compact_peers(&data).unwrap();
    assert_eq!(peers[0].ip(), [192, 168, 1, 1]);
    assert_eq!(peers[1].ip(), [192, 168, 1, 2]);
    assert_eq!(Tracker::parse_compact_peers(&[]).unwrap().len(), 0);
}

#[test]
fn compact_peers_ragged_length_fails() {
    assert!(matches!(Tracker::parse_compact_peers(&[1, 2, 3, 4, 5, 6, 7]), Err(Error::Tracker(_))));
    assert!(matches!(Tracker::parse_compact_peers(&[1, 2, 3, 4, 5]), Err(Error::Tracker(_))));
}

#[test]
fn percent_encoding_escapes_every_byte() {
    let bytes = b"Az09";
    assert_eq!(Tracker::url_encode_bytes(bytes), "%41%7a%30%39");
    assert_eq!(Tracker::url_encode_bytes(&[0x00, 0xFF]), "%00%ff");
    assert_eq!(Tracker::url_encode_bytes(&[]), "");
    let all: Vec<u8> = (0..=255u8).collect();
    assert_eq!(Tracker::url_encode_bytes(&all).len(), 3 * 256);
}

#[test]
fn new_started_request_fields() {
    let r = TrackerRequest::new_started([3u8; 20], [4u8; 20], 51413, 77);
    assert_eq!(r.info_hash, [3u8; 20]);
    assert_eq!(r.peer_id, [4u8; 20]);
    assert_eq!(r.uploaded, 0);
    assert_eq!(r.downloaded, 0);
    assert_eq!(r.event, Some(TrackerEvent::Started));
}

#[test]
fn query_string_exact() {
    let mut r = TrackerRequest::new_started([0xABu8; 20], [0x2Du8; 20], 6881, 1000000);
    let q = Tracker::build_query(&r);
    let mut expected = String::from("info_hash=");
    expected.push_str(&"%ab".repeat(20));
    expected.push_str("&peer_id=");
    expected.push_str(&"%2d".repeat(20));
    expected.push_str("&port=6881&uploaded=0&downloaded=0&left=1000000&compact=1&event=started");
    assert_eq!(q, expected);
    r.event = None;
    r.compact = false;
    r.uploaded = 10;
    let q = Tracker::build_query(&r);
    assert!(q.ends_with("&uploaded=10&downloaded=0&left=1000000&compact=0"));
    r.event = Some(TrackerEvent::Completed);
    assert!(Tracker::build_query(&r).ends_with("&event=completed"));
    r.event = Some(TrackerEvent::Stopped);
    assert!(Tracker::build_query(&r).ends_with("&event=stopped"));
}

#[test]
fn announce_url_exact() {
    let tracker = Tracker::new("http://tracker.test:6969/announce".to_string());
    let r = TrackerRequest::new_started([1u8; 20], [2u8; 20], 6881, 1000000);
    let url = tracker.build_url(&r).unwrap();
    let expected = format!(
        "http://tracker.test:6969/announce?info_hash={}&peer_id={}&port=6881&uploaded=0&downloaded=0&left=1000000&compact=1&event=started",
        "%01".repeat(20),
        "%02".repeat(20)
    );
    assert_eq!(url, expected);
}

#[test]
fn malformed_announce_url_is_url_error() {
    let tracker = Tracker::new("not a url".to_string());
    let r = TrackerRequest::new_started([1u8; 20], [2u8; 20], 6881, 1);
    assert!(matches!(tracker.build_url(&r), Err(Error::UrlParse(_))));
}

#[test]
fn response_parsed() {
    let mut body = b"d8:completei5e10:incompletei3e8:intervali1800e5:peers12:".to_vec();
    body.extend_from_slice(&[10, 0, 0, 1, 0x1A, 0xE1, 10, 0, 0, 2, 0x00, 0x50]);
    body.push(b'e');
    let r = Tracker::parse_response(&body).unwrap();
    assert_eq!(r.interval, 1800);
    assert_eq!(r.seeders, Some(5));
    assert_eq!(r.leechers, Some(3));
    assert_eq!(r.peers.len(), 2);
    assert_eq!(r.peers[1].ip(), [10, 0, 0, 2]);
    assert_eq!(r.peers[1].port(), 80);
}

#[test]
fn response_errors_are_tracker_errors() {
    let cases: Vec<&[u8]> = vec![
        b"garbage",
        b"le",
        b"d5:peers0:e",
        b"d8:intervali10ee",
        b"d8:intervali-1e5:peers0:e",
        b"d8:intervali10e5:peers5:abcdee",
        b"d8:completei-2e8:intervali10e5:peers0:e",
    ];
    for c in cases {
        assert!(matches!(Tracker::parse_response(c), Err(Error::Tracker(_))));
    }
    let minimal = Tracker::parse_response(b"d8:intervali10e5:peers0:e").unwrap();
    assert_eq!(minimal.seeders, None);
    assert!(minimal.peers.is_empty());
}

#[test]
fn announce_url_keeps_existing_query() {
    let tracker = Tracker::new("http://tracker.test/announce?passkey=abc".to_string());
    let r = TrackerRequest::new_started([1u8; 20], [2u8; 20], 6881, 5);
    let url = tracker.build_url(&r).unwrap();
    let expected = format!(
        "http://tracker.test/announce?passkey=abc&info_hash={}&peer_id={}&port=6881&uploaded=0&downloaded=0&left=5&compact=1&event=started",
        "%01".repeat(20),
        "%02".repeat(20)
    );
    assert_eq!(url, expected);
}
