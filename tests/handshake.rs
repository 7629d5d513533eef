use bittorrent::handshake::{Handshake, HandshakeError};

fn sample() -> ([u8; 20], [u8; 20]) {
    let mut id = [0u8; 20];
    let mut peer = [0u8; 20];
    for i in 0..20 {
        id[i] = i as u8;
        peer[i] = 200 - i as u8;
    }
    (id, peer)
}

#[test]
fn build_emits_fixed_layout() {
    let (id, peer) = sample();
    let bytes = Handshake::build(id, peer).to_bytes();
    assert_eq!(bytes.len(), 68);
    assert_eq!(bytes[0], 19);
    assert_eq!(&bytes[1..20], b"BitTorrent protocol");
    assert_eq!(&bytes[20..28], &[0u8; 8]);
    assert_eq!(&bytes[28..48], &id);
    assert_eq!(&bytes[48..68], &peer);
}

#[test]
fn handshake_round_trip_recovers_ids() {
    let (id, peer) = sample();
    let parsed = Handshake::from_bytes(&Handshake::build(id, peer).to_bytes()).unwrap();
    assert_eq!(parsed.length, 19);
    assert_eq!(parsed.protocol, "BitTorrent protocol");
    assert_eq!(parsed.reserved, 0);
    assert_eq!(parsed.info_hash, id);
    assert_eq!(parsed.peer_id, peer);
}

#[test]
fn new_uses_given_info_hash() {
    let (id, _) = sample();
    let h = Handshake::new(id);
    assert_eq!(h.info_hash, id);
    assert_eq!(h.length, 19);
    assert_eq!(h.to_bytes().len(), 68);
}

#[test]
fn short_buffer_is_rejected() {
    let (id, peer) = sample();
    let bytes = Handshake::build(id, peer).to_bytes();
    assert_eq!(Handshake::from_bytes(&bytes[..67]).unwrap_err(), HandshakeError::TooShort);
    assert_eq!(Handshake::from_bytes(&bytes[..48]).unwrap_err(), HandshakeError::TooShort);
    assert_eq!(Handshake::from_bytes(&[]).unwrap_err(), HandshakeError::TooShort);
}

#[test]
fn non_text_protocol_is_rejected() {
    let (id, peer) = sample();
    let mut bytes = Handshake::build(id, peer).to_bytes();
    bytes[5] = 0xff;
    assert_eq!(Handshake::from_bytes(&bytes).unwrap_err(), HandshakeError::Encoding);
}

#[test]
fn reserved_bytes_are_big_endian() {
    let mut bytes = vec![0u8; 68];
    bytes[0] = 19;
    bytes[1..20].copy_from_slice(b"BitTorrent protocol");
    bytes[20] = 0x01;
    bytes[27] = 0x05;
    let parsed = Handshake::from_bytes(&bytes).unwrap();
    assert_eq!(parsed.reserved, 0x0100_0000_0000_0005);
    assert_eq!(parsed.to_bytes(), bytes);
}
