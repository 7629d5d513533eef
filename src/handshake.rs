//! The fixed-layout handshake that two peers exchange when they connect.
use vstd::prelude::*;
use vstd::utf8::{
    decode_utf8, encode_utf8, encode_utf8_decode_utf8, encode_utf8_valid_utf8, is_ascii_chars,
    is_ascii_chars_encode_utf8, valid_utf8,
};
use rand::Rng;
use crate::bencode::text_from_utf8;

verus! {

/// Length of a handshake on the wire.
pub const HANDSHAKE_LEN: usize = 68;

/// The protocol name that a BitTorrent handshake carries.
pub open spec fn protocol_name() -> Seq<char> {
    seq!['B', 'i', 't', 'T', 'o', 'r', 'r', 'e', 'n', 't', ' ', 'p', 'r', 'o', 't', 'o', 'c', 'o', 'l']
}

/// Eight bytes, most significant first.
pub open spec fn be_bytes(x: u64) -> Seq<u8> {
    seq![
        (x / 0x100000000000000) as u8,
        (x / 0x1000000000000 % 256) as u8,
        (x / 0x10000000000 % 256) as u8,
        (x / 0x100000000 % 256) as u8,
        (x / 0x1000000 % 256) as u8,
        (x / 0x10000 % 256) as u8,
        (x / 0x100 % 256) as u8,
        (x % 256) as u8,
    ]
}

/// The number that eight bytes stand for, most significant first.
pub open spec fn be_value(b: Seq<u8>) -> int {
    b[0] * 0x100000000000000 + b[1] * 0x1000000000000 + b[2] * 0x10000000000 + b[3] * 0x100000000
        + b[4] * 0x1000000 + b[5] * 0x10000 + b[6] * 0x100 + b[7]
}

/// The wire form of a handshake with the given fields.
pub open spec fn handshake_wire(
    length: u8,
    protocol: Seq<char>,
    reserved: u64,
    info_hash: Seq<u8>,
    peer_id: Seq<u8>,
) -> Seq<u8> {
    seq![length] + encode_utf8(protocol) + be_bytes(reserved) + info_hash + peer_id
}

/// Why a buffer is not a handshake.
#[derive(Debug, Clone, Copy, PartialEq, Eq)]
pub enum HandshakeError {
    /// Fewer bytes than a whole handshake.
    TooShort,
    /// The protocol name field is not valid UTF-8 text.
    Encoding,
}

/// The handshake message: the length of the protocol name, the name, the
/// reserved bits, the info hash of the torrent and the sender's peer id.
#[derive(Debug)]
pub struct Handshake {
    pub length: u8,
    pub protocol: String,
    pub reserved: u64,
    pub info_hash: [u8; 20],
    pub peer_id: [u8; 20],
}

/// Relies on `rand::rng` and `Rng::random`: twenty random bytes, of which
/// nothing is promised.
#[verifier::external_body]
fn random_peer_id() -> [u8; 20] {
    let mut rng = rand::rng();
    rng.random()
}

fn append_array(out: &mut Vec<u8>, a: &[u8; 20])
    ensures
        final(out)@ == old(out)@ + a@,
{
    let mut i: usize = 0;
    while i < 20
        invariant
            0 <= i <= 20,
            a@.len() == 20,
            out@ == old(out)@ + a@.subrange(0, i as int),
        decreases 20 - i,
    {
        out.push(a[i]);
        i = i + 1;
        assert(out@ =~= old(out)@ + a@.subrange(0, i as int));
    }
    assert(a@.subrange(0, 20) =~= a@);
}

pub(crate) fn array_from(b: &[u8], start: usize) -> (r: [u8; 20])
    requires
        start + 20 <= b@.len(),
    ensures
        r@ == b@.subrange(start as int, start + 20),
{
    let mut r: [u8; 20] = [0u8; 20];
    let len = b.len();
    let mut i: usize = 0;
    while i < 20
        invariant
            0 <= i <= 20,
            len == b@.len(),
            start + 20 <= b@.len(),
            r@.len() == 20,
            forall|j: int| 0 <= j < i ==> r@[j] == b@[start + j],
        decreases 20 - i,
    {
        r[i] = b[start + i];
        i = i + 1;
    }
    assert(r@ =~= b@.subrange(start as int, start + 20));
    r
}

impl Handshake {
    /// A BitTorrent handshake for `info_hash` sent as `peer_id`.
    pub fn build(info_hash: [u8; 20], peer_id: [u8; 20]) -> (r: Handshake)
        ensures
            r.length == 19,
            r.protocol@ == protocol_name(),
            r.reserved == 0,
            r.info_hash == info_hash,
            r.peer_id == peer_id,
    {
        let protocol = "BitTorrent protocol".to_owned();
        proof {
            reveal_strlit("BitTorrent protocol");
            assert(protocol@ =~= protocol_name());
        }
        Handshake { length: 19, protocol, reserved: 0, info_hash, peer_id }
    }

    /// A BitTorrent handshake for `info_hash` with a fresh random peer id.
    pub fn new(info_hash: [u8; 20]) -> (r: Handshake)
        ensures
            r.length == 19,
            r.protocol@ == protocol_name(),
            r.reserved == 0,
            r.info_hash == info_hash,
    {
        Handshake::build(info_hash, random_peer_id())
    }

    /// The wire form: length byte, protocol name, reserved bytes (most
    /// significant first), info hash, peer id.
    pub fn to_bytes(&self) -> (r: Vec<u8>)
        ensures
            r@ == handshake_wire(self.length, self.protocol@, self.reserved, self.info_hash@, self.peer_id@),
    {
        let mut bytes: Vec<u8> = Vec::new();
        bytes.push(self.length);
        bytes.extend_from_slice(self.protocol.as_str().as_bytes());
        let x = self.reserved;
        bytes.push((x / 0x100000000000000) as u8);
        bytes.push((x / 0x1000000000000 % 256) as u8);
        bytes.push((x / 0x10000000000 % 256) as u8);
        bytes.push((x / 0x100000000 % 256) as u8);
        bytes.push((x / 0x1000000 % 256) as u8);
        bytes.push((x / 0x10000 % 256) as u8);
        bytes.push((x / 0x100 % 256) as u8);
        bytes.push((x % 256) as u8);
        append_array(&mut bytes, &self.info_hash);
        append_array(&mut bytes, &self.peer_id);
        assert(bytes@ =~= handshake_wire(self.length, self.protocol@, self.reserved, self.info_hash@, self.peer_id@));
        bytes
    }

    /// Reads a handshake by fixed offsets. The length byte and the protocol
    /// name are passed through as they stand; callers that negotiate strictly
    /// compare them with 19 and the BitTorrent name.
    pub fn from_bytes(buffer: &[u8]) -> (r: Result<Handshake, HandshakeError>)
        ensures
            buffer@.len() < HANDSHAKE_LEN <==> r == Err::<Handshake, HandshakeError>(HandshakeError::TooShort),
            buffer@.len() >= HANDSHAKE_LEN && !valid_utf8(buffer@.subrange(1, 20))
                <==> r == Err::<Handshake, HandshakeError>(HandshakeError::Encoding),
            r matches Ok(h) ==> {
                &&& h.length == buffer@[0]
                &&& h.protocol@ == decode_utf8(buffer@.subrange(1, 20))
                &&& h.reserved == be_value(buffer@.subrange(20, 28))
                &&& h.info_hash@ == buffer@.subrange(28, 48)
                &&& h.peer_id@ == buffer@.subrange(48, 68)
            },
    {
        if buffer.len() < HANDSHAKE_LEN {
            return Err(HandshakeError::TooShort);
        }
        let length = buffer[0];
        let mut name: Vec<u8> = Vec::new();
        let mut i: usize = 1;
        while i < 20
            invariant
                1 <= i <= 20,
                buffer@.len() >= 68,
                name@ == buffer@.subrange(1, i as int),
            decreases 20 - i,
        {
            name.push(buffer[i]);
            i = i + 1;
            assert(name@ =~= buffer@.subrange(1, i as int));
        }
        let protocol = match text_from_utf8(name) {
            Some(s) => s,
            None => {
                return Err(HandshakeError::Encoding);
            },
        };
        let reserved: u64 = buffer[20] as u64 * 0x100000000000000 + buffer[21] as u64 * 0x1000000000000
            + buffer[22] as u64 * 0x10000000000 + buffer[23] as u64 * 0x100000000 + buffer[24] as u64
            * 0x1000000 + buffer[25] as u64 * 0x10000 + buffer[26] as u64 * 0x100 + buffer[27] as u64;
        let info_hash = array_from(buffer, 28);
        let peer_id = array_from(buffer, 48);
        Ok(Handshake { length, protocol, reserved, info_hash, peer_id })
    }
}


/// Reading back the wire form of a built handshake recovers the info hash
/// and the peer id unchanged, with length byte 19 and the BitTorrent
/// protocol name as valid text.
pub proof fn handshake_round_trip(info_hash: Seq<u8>, peer_id: Seq<u8>)
    requires
        info_hash.len() == 20,
        peer_id.len() == 20,
    ensures
        ({
            let b = handshake_wire(19, protocol_name(), 0, info_hash, peer_id);
            &&& b.len() == HANDSHAKE_LEN
            &&& b[0] == 19
            &&& valid_utf8(b.subrange(1, 20))
            &&& decode_utf8(b.subrange(1, 20)) == protocol_name()
            &&& be_value(b.subrange(20, 28)) == 0
            &&& b.subrange(28, 48) == info_hash
            &&& b.subrange(48, 68) == peer_id
        }),
{
    let name = protocol_name();
    assert(is_ascii_chars(name));
    is_ascii_chars_encode_utf8(name);
    encode_utf8_valid_utf8(name);
    encode_utf8_decode_utf8(name);
    let b = handshake_wire(19, name, 0, info_hash, peer_id);
    assert(b.subrange(1, 20) =~= encode_utf8(name));
    assert(b.subrange(20, 28) =~= be_bytes(0));
    assert(b.subrange(28, 48) =~= info_hash);
    assert(b.subrange(48, 68) =~= peer_id);
}

} // verus!
