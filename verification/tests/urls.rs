//! The tracker request builder, the compact peer list, the response
//! validation, and the text encoders underneath them.

use torrent::encoding::{percent_encode, u64_to_decimal};
use torrent::tracker::{Error, Event, PeerInfo, Request, Response, TorrentState, Valid};

#[test]
fn test_url_serialization() {
    let req = Request {
        base: b"https://localhost/announce".to_vec(),
        info_hash: b"test".to_vec(),
        peer_id: b"CN1".to_vec(),
        tracker_id: None,
        port: 1000,
        torrent_state: TorrentState { uploaded: 0, downloaded: 0, left: 1000 },
        num_peers: 10,
        event: Some(Event::Started),
    };
    let url = req.into_url();
    let want: &[u8] = b"https://localhost/announce?peer_id=CN1&port=1000&uploaded=0&downloaded=0&left=1000&numwant=10&event=started&info_hash=test";
    assert_eq!(url.as_slice(), want);
}

#[test]
fn url_with_tracker_id_and_encoded_peer_id() {
    let req = Request {
        base: b"http://t/a".to_vec(),
        info_hash: b"%AA%BB".to_vec(),
        peer_id: b"-CN0010-123 456/".to_vec(),
        tracker_id: Some(b"tid".to_vec()),
        port: 8888,
        torrent_state: TorrentState { uploaded: 5, downloaded: 7, left: 42 },
        num_peers: 30,
        event: None,
    };
    let url = req.into_url();
    let want: &[u8] = b"http://t/a?peer_id=-CN0010-123%20456%2F&trackerid=tid&port=8888&uploaded=5&downloaded=7&left=42&numwant=30&info_hash=%AA%BB";
    assert_eq!(url.as_slice(), want);
}

#[test]
fn compact_peer_list() {
    let bytes: &[u8] = &[91, 64, 137, 190, 200, 213, 92, 62, 63, 75, 26, 225];
    let peers = PeerInfo::deserialize(bytes).unwrap();
    assert_eq!(peers.len(), 2);
    assert_eq!(peers[0].ip, [91, 64, 137, 190]);
    assert_eq!(peers[0].port, 51413);
    assert_eq!(peers[1].ip, [92, 62, 63, 75]);
    assert_eq!(peers[1].port, 6881);

    assert!(matches!(PeerInfo::deserialize(&[1, 2, 3]), Err(Error::InvalidLength)));
    assert!(PeerInfo::deserialize(&[]).unwrap().is_empty());
}

#[test]
fn response_validation() {
    let ok = Response {
        failure_reason: None,
        tracker_id: Some("tid".to_string()),
        warning_message: None,
        interval: Some(1800),
        peers: Some(vec![PeerInfo { ip: [127, 0, 0, 1], port: 6881 }]),
    };
    let v: Valid = Valid::from_response(ok).unwrap();
    assert_eq!(v.interval, 1800);
    assert_eq!(v.peers.len(), 1);
    assert_eq!(v.tracker_id.as_deref(), Some("tid"));

    let failure = Response {
        failure_reason: Some("busy".to_string()),
        tracker_id: None,
        warning_message: None,
        interval: None,
        peers: None,
    };
    let back = Valid::from_response(failure).unwrap_err();
    assert_eq!(back.failure_reason.as_deref(), Some("busy"));
}

#[test]
fn decimal_rendering() {
    assert_eq!(u64_to_decimal(0), b"0".to_vec());
    assert_eq!(u64_to_decimal(7), b"7".to_vec());
    assert_eq!(u64_to_decimal(1000), b"1000".to_vec());
    assert_eq!(u64_to_decimal(u64::MAX), b"18446744073709551615".to_vec());
}

#[test]
fn percent_encoding() {
    assert_eq!(percent_encode(b"AZaz09-._~"), b"AZaz09-._~".to_vec());
    assert_eq!(percent_encode(b"a b"), b"a%20b".to_vec());
    assert_eq!(percent_encode(&[0x00, 0xE7, 0xFF]), b"%00%E7%FF".to_vec());
}
