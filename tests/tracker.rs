use bittorrent::bencode::DecodeError;
use bittorrent::tracker::{PeerAddr, PeersVisitor, TrackerError, TrackerResponse};

#[test]
fn twelve_bytes_give_two_peers_in_order() {
    let buf = [192u8, 168, 1, 10, 0x1a, 0xe1, 10, 0, 0, 1, 0x00, 0x50];
    let peers = PeersVisitor.visit_bytes(&buf).unwrap();
    assert_eq!(peers.0.len(), 2);
    assert_eq!(peers.0[0], PeerAddr { ip: [192, 168, 1, 10], port: 6881 });
    assert_eq!(peers.0[1], PeerAddr { ip: [10, 0, 0, 1], port: 80 });
}

#[test]
fn seven_bytes_fail_alignment() {
    let buf = [1u8, 2, 3, 4, 5, 6, 7];
    assert_eq!(PeersVisitor.visit_bytes(&buf).unwrap_err(), TrackerError::Alignment);
}

#[test]
fn empty_peer_list_is_empty() {
    assert_eq!(PeersVisitor.visit_bytes(&[]).unwrap().0.len(), 0);
}

#[test]
fn tracker_reply_is_read() {
    let mut b = b"d8:intervali1800e5:peers6:".to_vec();
    b.extend_from_slice(&[127, 0, 0, 1, 0x1a, 0xe1]);
    b.push(b'e');
    let r = TrackerResponse::from_bytes(&b).unwrap();
    assert_eq!(r.interval, 1800);
    assert_eq!(r.peers.0, vec![PeerAddr { ip: [127, 0, 0, 1], port: 6881 }]);
}

#[test]
fn tracker_reply_errors() {
    assert_eq!(TrackerResponse::from_bytes(b"d5:peers0:e").unwrap_err(), TrackerError::Missing);
    assert_eq!(TrackerResponse::from_bytes(b"d8:intervali-1e5:peers0:e").unwrap_err(), TrackerError::WrongType);
    assert_eq!(TrackerResponse::from_bytes(b"d8:intervali5e5:peers1:xe").unwrap_err(), TrackerError::Alignment);
    assert_eq!(TrackerResponse::from_bytes(b"le").unwrap_err(), TrackerError::WrongType);
    assert_eq!(TrackerResponse::from_bytes(b"d8:interval").unwrap_err(), TrackerError::Decode(DecodeError::Malformed));
}
