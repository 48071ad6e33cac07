use torrent_crab::peer::{generate_peer_id, peer_id_with_suffix};

#[test]
fn test_generate_peer_id() {
    let peer_id = generate_peer_id();
    assert_eq!(peer_id.len(), 20);
    assert_eq!(&peer_id[0..8], b"-RS0100-");
}

#[test]
fn peer_id_is_prefix_then_suffix() {
    let id = peer_id_with_suffix([7u8; 12]);
    assert_eq!(&id[0..8], b"-RS0100-");
    assert_eq!(&id[8..], &[7u8; 12]);
}
