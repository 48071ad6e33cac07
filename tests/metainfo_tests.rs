use sha1::{Digest, Sha1};
use torrent_crab::metainfo::FileInfo;
use torrent_crab::{Error, Metainfo};

fn create_test_torrent() -> Vec<u8> {
    let torrent = r#"d8:announce9:localhost4:infod6:lengthi1000e4:name8:test.txt12:piece lengthi512e6:pieces20:12345678901234567890ee"#;
    torrent.as_bytes().to_vec()
}

fn create_minimal_torrent() -> Vec<u8> {
    let data = "d8:announce24:http://tracker.test:6969\
                 4:infod6:lengthi1048576e\
                 4:name9:test.file\
                 12:piece lengthi262144e\
                 6:pieces80:";
    let mut result = data.as_bytes().to_vec();
    for _ in 0..4 {
        result.extend_from_slice(&[0u8; 20]);
    }
    result.push(b'e');
    result.push(b'e');
    result
}

fn zero_pieces_info() -> Vec<u8> {
    let mut info = b"d6:lengthi1000e4:name4:test12:piece lengthi512e6:pieces20:".to_vec();
    info.extend_from_slice(&[0u8; 20]);
    info.push(b'e');
    info
}

fn zero_pieces_torrent() -> Vec<u8> {
    let mut data = b"d8:announce9:localhost4:info".to_vec();
    data.extend_from_slice(&zero_pieces_info());
    data.push(b'e');
    data
}

#[test]
fn test_parse_torrent() {
    let data = create_test_torrent();
    let metainfo = Metainfo::from_bytes(&data).unwrap();

    assert_eq!(metainfo.announce, "localhost");
    assert_eq!(metainfo.info.name, "test.txt");
    assert_eq!(metainfo.total_size(), 1000);
    assert_eq!(metainfo.num_pieces(), 1);
}

#[test]
fn test_info_hash_consistency() {
    let data = create_test_torrent();
    let metainfo1 = Metainfo::from_bytes(&data).unwrap();
    let metainfo2 = Metainfo::from_bytes(&data).unwrap();

    assert_eq!(metainfo1.info_hash, metainfo2.info_hash);
}

#[test]
fn test_invalid_piece_length() {
    let torrent_data = b"d8:announce9:localhost4:infod6:lengthi1000e4:name4:test12:piece lengthi512e6:pieces19:1234567890123456789ee";

    let result = Metainfo::from_bytes(torrent_data);
    assert!(result.is_err());
}

#[test]
fn test_piece_calculation() {
    let data = create_test_torrent();
    let metainfo = Metainfo::from_bytes(&data).unwrap();

    assert_eq!(metainfo.num_pieces(), 1);
}

#[test]
fn test_all_trackers_deduplication() {
    let torrent = "d8:announce9:tracker-113:announce-listll9:tracker-1e\
                   l9:tracker-2el9:tracker-1ee\
                   4:infod6:lengthi1000e4:name4:test12:piece lengthi512e\
                   6:pieces20:12345678901234567890ee";

    let metainfo = Metainfo::from_bytes(torrent.as_bytes()).unwrap();
    let trackers = metainfo.all_trackers();

    assert_eq!(trackers.len(), 2);
}

#[test]
fn test_parse_single_file_torrent() {
    let metainfo = Metainfo::from_bytes(&create_minimal_torrent()).unwrap();

    assert_eq!(metainfo.info.name, "test.file");
    assert_eq!(metainfo.total_size(), 1048576);
    assert_eq!(metainfo.num_pieces(), 4);
    assert_eq!(metainfo.info.piece_length, 262144);
}

#[test]
fn test_info_hash_deterministic() {
    let data = create_minimal_torrent();
    let metainfo1 = Metainfo::from_bytes(&data).unwrap();
    let metainfo2 = Metainfo::from_bytes(&data).unwrap();

    assert_eq!(metainfo1.info_hash, metainfo2.info_hash);
}

#[test]
fn test_multi_file_torrent() {
    let torrent_data = "d8:announce24:http://tracker.test:6969\
                        4:infod5:filesl\
                        d6:lengthi1000e4:pathl5:file1ee\
                        d6:lengthi2000e4:pathl5:file2ee\
                        e\
                        4:name7:testdir\
                        12:piece lengthi512e\
                        6:pieces60:";

    let mut data = torrent_data.as_bytes().to_vec();
    for _ in 0..3 {
        data.extend_from_slice(&[0u8; 20]);
    }
    data.extend_from_slice(b"ee");

    let metainfo = Metainfo::from_bytes(&data).unwrap();

    assert_eq!(metainfo.total_size(), 3000);
    assert_eq!(metainfo.info.name, "testdir");

    if let FileInfo::Multi { files } = &metainfo.info.files {
        assert_eq!(files.len(), 2);
        assert_eq!(files[0].length, 1000);
        assert_eq!(files[1].length, 2000);
        assert_eq!(files[0].path, vec!["file1".to_string()]);
    } else {
        panic!("Expected multi-file torrent");
    }
}

#[test]
fn zero_pieces_scenario() {
    let metainfo = Metainfo::from_bytes(&zero_pieces_torrent()).unwrap();
    assert_eq!(metainfo.announce, "localhost");
    assert_eq!(metainfo.total_size(), 1000);
    assert_eq!(metainfo.num_pieces(), 1);
    assert_eq!(metainfo.info.pieces[0], [0u8; 20]);
    assert!(metainfo.announce_list.is_empty());
    assert!(metainfo.comment.is_none());
}

#[test]
fn info_hash_is_sha1_of_canonical_info() {
    let metainfo = Metainfo::from_bytes(&zero_pieces_torrent()).unwrap();
    let expected: [u8; 20] = Sha1::digest(zero_pieces_info()).into();
    assert_eq!(metainfo.info_hash, expected);
}

#[test]
fn info_hash_ignores_outer_and_key_order() {
    let mut data = b"d4:infod4:name4:test6:lengthi1000e6:pieces20:".to_vec();
    data.extend_from_slice(&[0u8; 20]);
    data.extend_from_slice(b"12:piece lengthi512ee7:comment2:hi8:announce9:localhoste");
    let reordered = Metainfo::from_bytes(&data).unwrap();
    let plain = Metainfo::from_bytes(&zero_pieces_torrent()).unwrap();
    assert_eq!(reordered.info_hash, plain.info_hash);
    assert_eq!(reordered.comment, Some("hi".to_string()));
}

#[test]
fn ragged_pieces_is_validation_error() {
    let torrent_data = b"d8:announce9:localhost4:infod6:lengthi1000e4:name4:test12:piece lengthi512e6:pieces19:1234567890123456789ee";
    assert!(matches!(Metainfo::from_bytes(torrent_data), Err(Error::InvalidMetainfo(_))));
}

#[test]
fn malformed_bencode_is_decode_error() {
    assert!(matches!(Metainfo::from_bytes(b"d8:announce"), Err(Error::BencodeDecode(_))));
}

#[test]
fn missing_or_bad_fields_are_validation_errors() {
    let cases: Vec<&[u8]> = vec![
        b"le",
        b"d4:infod6:lengthi1e4:name1:x12:piece lengthi1e6:pieces0:ee",
        b"d8:announce1:a4:infod6:lengthi1e4:name1:x12:piece lengthi0e6:pieces0:ee",
        b"d8:announce1:a4:infod6:lengthi1e4:name1:x6:pieces0:ee",
        b"d8:announce1:a4:infod4:name1:x12:piece lengthi1e6:pieces0:ee",
        b"d8:announce1:a4:infod6:lengthi-1e4:name1:x12:piece lengthi1e6:pieces0:ee",
        b"d8:announce1:a13:creation date1:x4:infod6:lengthi1e4:name1:x12:piece lengthi1e6:pieces0:ee",
        b"d8:announce1:a4:infoi1ee",
        b"d8:announce1:\xff4:infod6:lengthi1e4:name1:x12:piece lengthi1e6:pieces0:ee",
    ];
    for c in cases {
        assert!(matches!(Metainfo::from_bytes(c), Err(Error::InvalidMetainfo(_))));
    }
}

#[test]
fn optional_fields_are_read() {
    let data = b"d8:announce1:a7:comment2:hi10:created by3:bob13:creation datei1700000000e4:infod6:lengthi1e4:name1:x12:piece lengthi1e6:pieces0:ee";
    let m = Metainfo::from_bytes(data).unwrap();
    assert_eq!(m.comment, Some("hi".to_string()));
    assert_eq!(m.created_by, Some("bob".to_string()));
    assert_eq!(m.creation_date, Some(1700000000));
    assert_eq!(m.num_pieces(), 0);
}

#[test]
fn all_trackers_sorted_distinct() {
    let torrent = "d8:announce9:tracker-113:announce-listll9:tracker-1e\
                   l9:tracker-2el9:tracker-1ee\
                   4:infod6:lengthi1000e4:name4:test12:piece lengthi512e\
                   6:pieces20:12345678901234567890ee";
    let metainfo = Metainfo::from_bytes(torrent.as_bytes()).unwrap();
    assert_eq!(metainfo.all_trackers(), vec!["tracker-1".to_string(), "tracker-2".to_string()]);
    let single = Metainfo::from_bytes(&create_test_torrent()).unwrap();
    assert_eq!(single.all_trackers(), vec!["localhost".to_string()]);
}

#[test]
fn all_trackers_sorts_across_tiers() {
    let torrent = "d8:announce1:c13:announce-listll1:bel1:a1:cee\
                   4:infod6:lengthi1e4:name1:x12:piece lengthi1e6:pieces0:ee";
    let metainfo = Metainfo::from_bytes(torrent.as_bytes()).unwrap();
    assert_eq!(metainfo.announce_list.len(), 2);
    assert_eq!(metainfo.all_trackers(), vec!["a".to_string(), "b".to_string(), "c".to_string()]);
}

#[test]
fn total_size_overflow_is_reported() {
    let data = b"d8:announce1:a4:infod5:filesld6:lengthi9223372036854775807e4:pathl1:aeed6:lengthi9223372036854775807e4:pathl1:beed6:lengthi9e4:pathl1:ceee4:name1:x12:piece lengthi1e6:pieces0:ee";
    let m = Metainfo::from_bytes(data).unwrap();
    assert_eq!(m.checked_total_size(), None);
    let small = Metainfo::from_bytes(&create_test_torrent()).unwrap();
    assert_eq!(small.checked_total_size(), Some(1000));
}

#[test]
fn wrong_length_prefix_is_decode_error() {
    let mut data = b"d8:announce23:http://tracker.test:69694:infod6:lengthi1048576e4:name9:test.file12:piece lengthi262144e6:pieces80:".to_vec();
    data.extend_from_slice(&[0u8; 80]);
    data.extend_from_slice(b"ee");
    assert!(matches!(Metainfo::from_bytes(&data), Err(Error::BencodeDecode(_))));
}
