//! The tracker's reply: the re-announce interval and the compact peer list.
use vstd::prelude::*;
use crate::bencode::{decode, decode_spec, lookup, usize_of, DecodeError, SValue, Value};

verus! {

/// Bytes that one endpoint takes in the compact form.
pub const PEER_LEN: usize = 6;

/// Why a tracker reply could not be read.
#[derive(Debug, Clone, Copy, PartialEq, Eq)]
pub enum TrackerError {
    /// The bytes are not one bencode value.
    Decode(DecodeError),
    /// A required field is absent.
    Missing,
    /// A field, or the reply itself, has the wrong kind of value.
    WrongType,
    /// The peer list is not made of whole 6-byte records.
    Alignment,
}

/// An IPv4 endpoint: four address octets and a port.
#[derive(Debug, Clone, Copy, PartialEq, Eq)]
pub struct PeerAddr {
    pub ip: [u8; 4],
    pub port: u16,
}

impl PeerAddr {
    pub open spec fn view(&self) -> (Seq<u8>, int) {
        (self.ip@, self.port as int)
    }
}

/// The endpoints of a compact peer list, in order.
#[derive(Debug)]
pub struct Peers(pub Vec<PeerAddr>);

impl Peers {
    pub open spec fn view(&self) -> Seq<(Seq<u8>, int)> {
        Seq::new(self.0@.len(), |i: int| self.0@[i]@)
    }
}

/// The endpoint in the `i`-th record: four octets, then the port, most
/// significant byte first.
pub open spec fn compact_peer(b: Seq<u8>, i: int) -> (Seq<u8>, int) {
    (b.subrange(6 * i, 6 * i + 4), b[6 * i + 4] * 256 + b[6 * i + 5])
}

/// The endpoints of a compact buffer whose length is a multiple of six.
pub open spec fn compact_peers(b: Seq<u8>) -> Seq<(Seq<u8>, int)> {
    Seq::new(b.len() / 6, |i: int| compact_peer(b, i))
}

/// Decodes the compact peer list.
pub struct PeersVisitor;

impl PeersVisitor {
    /// Splits a compact buffer into endpoints, keeping their order.
    pub fn visit_bytes(self, value: &[u8]) -> (r: Result<Peers, TrackerError>)
        ensures
            value@.len() % 6 == 0 ==> (r matches Ok(p) && p@ == compact_peers(value@)),
            value@.len() % 6 != 0 ==> r == Err::<Peers, TrackerError>(TrackerError::Alignment),
    {
        let len = value.len();
        if len % PEER_LEN != 0 {
            return Err(TrackerError::Alignment);
        }
        let n = len / PEER_LEN;
        let mut out: Vec<PeerAddr> = Vec::new();
        let mut i: usize = 0;
        while i < n
            invariant
                0 <= i <= n,
                n == value@.len() / 6,
                len == value@.len(),
                out@.len() == i,
                forall|j: int| 0 <= j < i ==> (#[trigger] out@[j])@ == compact_peer(value@, j),
            decreases n - i,
        {
            assert(6 * i + 6 <= value@.len()) by (nonlinear_arith)
                requires i < n, n == value@.len() / 6;
            let k = PEER_LEN * i;
            let ip: [u8; 4] = [value[k], value[k + 1], value[k + 2], value[k + 3]];
            let port: u16 = value[k + 4] as u16 * 256 + value[k + 5] as u16;
            let peer = PeerAddr { ip, port };
            assert(peer@.0 =~= value@.subrange(k as int, k + 4));
            out.push(peer);
            i = i + 1;
        }
        let p = Peers(out);
        assert(p@ =~= compact_peers(value@));
        Ok(p)
    }
}

/// Model of a tracker reply.
pub struct STrackerResponse {
    pub interval: nat,
    pub peers: Seq<(Seq<u8>, int)>,
}

/// A tracker reply: how long to wait before asking again, and the peers.
#[derive(Debug)]
pub struct TrackerResponse {
    pub interval: usize,
    pub peers: Peers,
}

impl TrackerResponse {
    pub open spec fn view(&self) -> STrackerResponse {
        STrackerResponse { interval: self.interval as nat, peers: self.peers@ }
    }
}

pub open spec fn key_interval() -> Seq<u8> {
    seq![105u8, 110, 116, 101, 114, 118, 97, 108]
}

pub open spec fn key_peers() -> Seq<u8> {
    seq![112u8, 101, 101, 114, 115]
}

/// The reply: a dictionary with an `interval` size and a compact `peers` list.
pub open spec fn tracker_of(v: SValue) -> Result<STrackerResponse, TrackerError> {
    if !(v is Dict) {
        Err(TrackerError::WrongType)
    } else {
        match lookup(v, key_interval()) {
            None => Err(TrackerError::Missing),
            Some(w) => match usize_of(w) {
                None => Err(TrackerError::WrongType),
                Some(interval) => match lookup(v, key_peers()) {
                    None => Err(TrackerError::Missing),
                    Some(SValue::Bytes(b)) => if b.len() % 6 == 0 {
                        Ok(STrackerResponse { interval: interval as nat, peers: compact_peers(b) })
                    } else {
                        Err(TrackerError::Alignment)
                    },
                    Some(_) => Err(TrackerError::WrongType),
                },
            },
        }
    }
}

/// What reading a reply from bytes gives.
pub open spec fn tracker_from(b: Seq<u8>) -> Result<STrackerResponse, TrackerError> {
    match decode_spec(b) {
        Some(v) => tracker_of(v),
        None => Err(TrackerError::Decode(DecodeError::Malformed)),
    }
}

impl TrackerResponse {
    /// Reads a reply from a decoded value.
    pub fn from_value(v: &Value) -> (r: Result<TrackerResponse, TrackerError>)
        ensures
            match tracker_of(v@) {
                Ok(t) => r matches Ok(x) && x@ == t,
                Err(e) => r matches Err(e2) && e2 == e,
            },
    {
        if !matches!(v, Value::Dict(_)) {
            return Err(TrackerError::WrongType);
        }
        let interval_key: Vec<u8> = vec![105u8, 110, 116, 101, 114, 118, 97, 108];
        assert(interval_key@ =~= key_interval());
        let interval = match v.get(interval_key.as_slice()) {
            None => {
                return Err(TrackerError::Missing);
            },
            Some(w) => match w.as_usize() {
                None => {
                    return Err(TrackerError::WrongType);
                },
                Some(n) => n,
            },
        };
        let peers_key: Vec<u8> = vec![112u8, 101, 101, 114, 115];
        assert(peers_key@ =~= key_peers());
        match v.get(peers_key.as_slice()) {
            None => Err(TrackerError::Missing),
            Some(Value::Bytes(b)) => match PeersVisitor.visit_bytes(b.as_slice()) {
                Ok(peers) => Ok(TrackerResponse { interval, peers }),
                Err(e) => Err(e),
            },
            Some(_) => Err(TrackerError::WrongType),
        }
    }

    /// Reads a reply from its bencoded bytes.
    pub fn from_bytes(b: &[u8]) -> (r: Result<TrackerResponse, TrackerError>)
        ensures
            match tracker_from(b@) {
                Ok(t) => r matches Ok(x) && x@ == t,
                Err(e) => r matches Err(e2) && e2 == e,
            },
    {
        match decode(b) {
            Ok(v) => TrackerResponse::from_value(&v),
            Err(e) => Err(TrackerError::Decode(e)),
        }
    }
}


/// A 12-byte compact buffer holds exactly two endpoints, in input order.
pub proof fn two_endpoints_in_order(b: Seq<u8>)
    requires
        b.len() == 12,
    ensures
        b.len() % 6 == 0,
        compact_peers(b).len() == 2,
        compact_peers(b)[0] == (b.subrange(0, 4), b[4] * 256 + b[5]),
        compact_peers(b)[1] == (b.subrange(6, 10), b[10] * 256 + b[11]),
{
}

} // verus!
