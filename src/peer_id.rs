//! The 20-byte peer id a client announces itself with.
use vstd::prelude::*;
use crate::infohash::{url_encode, url_encoded_of};
use crate::outside::{hex_encode, hex_of, nanos_since_epoch};

verus! {

/// Big-endian bytes of a 32-bit value.
pub open spec fn be32(x: u32) -> Seq<u8> {
    seq![(x >> 24u32) as u8, (x >> 16u32) as u8, (x >> 8u32) as u8, x as u8]
}

/// Big-endian bytes of a 64-bit value.
pub open spec fn be64(x: u64) -> Seq<u8> {
    seq![
        (x >> 56u64) as u8,
        (x >> 48u64) as u8,
        (x >> 40u64) as u8,
        (x >> 32u64) as u8,
        (x >> 24u64) as u8,
        (x >> 16u64) as u8,
        (x >> 8u64) as u8,
        x as u8,
    ]
}

pub fn be32_bytes(x: u32) -> (r: [u8; 4])
    ensures
        r@ == be32(x),
{
    let r = [(x >> 24u32) as u8, (x >> 16u32) as u8, (x >> 8u32) as u8, x as u8];
    assert(r@ =~= be32(x));
    r
}

pub fn be64_bytes(x: u64) -> (r: [u8; 8])
    ensures
        r@ == be64(x),
{
    let r = [
        (x >> 56u64) as u8,
        (x >> 48u64) as u8,
        (x >> 40u64) as u8,
        (x >> 32u64) as u8,
        (x >> 24u64) as u8,
        (x >> 16u64) as u8,
        (x >> 8u64) as u8,
        x as u8,
    ];
    assert(r@ =~= be64(x));
    r
}

/// The twelve time bytes: the low 64 bits of the clock's nanoseconds, then
/// the random word, both big-endian.
pub fn time_bytes(nanos: u128, random: u32) -> (r: [u8; 12])
    ensures
        r@ == be64(nanos as u64) + be32(random),
{
    let t = be64_bytes(nanos as u64);
    let q = be32_bytes(random);
    let r = [t[0], t[1], t[2], t[3], t[4], t[5], t[6], t[7], q[0], q[1], q[2], q[3]];
    assert(r@ =~= be64(nanos as u64) + be32(random));
    r
}

/// A peer id: a `-` marker, a two-byte client tag, the process id, twelve
/// bytes of time and randomness, and a closing `-` marker.
#[derive(Debug, Clone, Copy, Eq)]
pub struct PeerID {
    pub start: [u8; 1],
    pub uid: [u8; 2],
    pub pid: [u8; 4],
    pub time: [u8; 12],
    pub end: [u8; 1],
}

impl PeerID {
    pub open spec fn spec_bytes(&self) -> Seq<u8> {
        self.start@ + self.uid@ + self.pid@ + self.time@ + self.end@
    }

    /// A peer id from its parts.
    pub fn from_parts(uid: [u8; 2], pid: u32, time: [u8; 12]) -> (r: PeerID)
        ensures
            r.start@ == seq![45u8],
            r.uid == uid,
            r.pid@ == be32(pid),
            r.time == time,
            r.end@ == seq![45u8],
    {
        let r = PeerID { start: [45u8], uid, pid: be32_bytes(pid), time, end: [45u8] };
        assert(r.start@ =~= seq![45u8]);
        assert(r.end@ =~= seq![45u8]);
        r
    }

    /// A fresh peer id with the client tag `ZG` for the process `pid`.
    pub fn new(pid: u32) -> (r: PeerID)
        ensures
            r.start@ == seq![45u8],
            r.uid@ == seq![90u8, 71u8],
            r.pid@ == be32(pid),
            r.end@ == seq![45u8],
    {
        let r = PeerID::with_uid([90u8, 71u8], pid);
        r
    }

    /// A fresh peer id with the client tag `uid` for the process `pid`.
    pub fn with_uid(uid: [u8; 2], pid: u32) -> (r: PeerID)
        ensures
            r.start@ == seq![45u8],
            r.uid == uid,
            r.pid@ == be32(pid),
            r.end@ == seq![45u8],
    {
        let nanos = match nanos_since_epoch() {
            Some(n) => n,
            None => 0,
        };
        let random: u32 = rand::random();
        PeerID::from_parts(uid, pid, time_bytes(nanos, random))
    }

    /// The 20 bytes, in wire order.
    pub fn as_bytes(&self) -> (r: [u8; 20])
        ensures
            r@ == self.spec_bytes(),
    {
        let r = [
            self.start[0],
            self.uid[0],
            self.uid[1],
            self.pid[0],
            self.pid[1],
            self.pid[2],
            self.pid[3],
            self.time[0],
            self.time[1],
            self.time[2],
            self.time[3],
            self.time[4],
            self.time[5],
            self.time[6],
            self.time[7],
            self.time[8],
            self.time[9],
            self.time[10],
            self.time[11],
            self.end[0],
        ];
        assert(r@ =~= self.spec_bytes());
        r
    }

    /// A peer id from exactly 20 bytes.
    pub fn from_bytes(b: &[u8]) -> (r: Result<PeerID, String>)
        ensures
            r is Ok <==> b@.len() == 20,
            r matches Ok(p) ==> p.spec_bytes() == b@,
    {
        if b.len() != 20 {
            return Err("Peer Id can only be 20 bytes long".to_string());
        }
        let p = PeerID {
            start: [b[0]],
            uid: [b[1], b[2]],
            pid: [b[3], b[4], b[5], b[6]],
            time: [b[7], b[8], b[9], b[10], b[11], b[12], b[13], b[14], b[15], b[16], b[17], b[18]],
            end: [b[19]],
        };
        assert(p.spec_bytes() =~= b@);
        Ok(p)
    }

    /// Lowercase hexadecimal form of the 20 bytes.
    pub fn to_hex_encode(&self) -> (r: String)
        ensures
            r@ == hex_of(self.spec_bytes()),
    {
        let b = self.as_bytes();
        hex_encode(vstd::array::array_as_slice(&b))
    }

    /// Percent-encoded form, as used in HTTP tracker queries.
    pub fn to_url_encoded(&self) -> (r: String)
        ensures
            r@ == url_encoded_of(self.spec_bytes()),
    {
        let b = self.as_bytes();
        url_encode(vstd::array::array_as_slice(&b))
    }
}

impl PartialEq for PeerID {
    fn eq(&self, o: &PeerID) -> (r: bool) {
        let a = self.as_bytes();
        let b = o.as_bytes();
        let mut i: usize = 0;
        while i < 20
            invariant
                0 <= i <= 20,
                a@ == self.spec_bytes(),
                b@ == o.spec_bytes(),
                a@.len() == 20,
                b@.len() == 20,
                forall|j: int| 0 <= j < i ==> a@[j] == b@[j],
            decreases 20 - i,
        {
            if a[i] != b[i] {
                return false;
            }
            i = i + 1;
        }
        assert(a@ =~= b@);
        true
    }
}

impl vstd::std_specs::cmp::PartialEqSpecImpl for PeerID {
    open spec fn obeys_eq_spec() -> bool {
        true
    }

    open spec fn eq_spec(&self, o: &PeerID) -> bool {
        self.spec_bytes() == o.spec_bytes()
    }
}

/// A peer id was built from a byte string of the wrong length.
#[derive(Debug, Clone, Copy, PartialEq, Eq, Structural)]
pub struct PeerIdLengthError {
    pub len: usize,
}

impl PeerIdLengthError {
    /// The message shown to a user.
    pub fn message(&self) -> (r: String)
        ensures
            r@ == "Peer Id can only be 20 bytes long"@,
    {
        "Peer Id can only be 20 bytes long".to_string()
    }
}

/// The peer id whose wire bytes are `b[0..20]`.
pub open spec fn peer_of(b: &[u8]) -> PeerID {
    PeerID {
        start: [b[0]],
        uid: [b[1], b[2]],
        pid: [b[3], b[4], b[5], b[6]],
        time: [b[7], b[8], b[9], b[10], b[11], b[12], b[13], b[14], b[15], b[16], b[17], b[18]],
        end: [b[19]],
    }
}

impl<'a> TryFrom<&'a [u8]> for PeerID {
    type Error = PeerIdLengthError;

    fn try_from(b: &'a [u8]) -> (r: Result<PeerID, PeerIdLengthError>) {
        if b.len() != 20 {
            return Err(PeerIdLengthError { len: b.len() });
        }
        Ok(PeerID {
            start: [b[0]],
            uid: [b[1], b[2]],
            pid: [b[3], b[4], b[5], b[6]],
            time: [b[7], b[8], b[9], b[10], b[11], b[12], b[13], b[14], b[15], b[16], b[17], b[18]],
            end: [b[19]],
        })
    }
}

impl<'a> vstd::std_specs::convert::TryFromSpecImpl<&'a [u8]> for PeerID {
    open spec fn obeys_try_from_spec() -> bool {
        true
    }

    /// `Ok` exactly for 20 bytes, which are then the peer id's wire bytes.
    open spec fn try_from_spec(b: &'a [u8]) -> Result<PeerID, PeerIdLengthError> {
        if b@.len() == 20 {
            Ok(peer_of(b))
        } else {
            Err(PeerIdLengthError { len: b@.len() as usize })
        }
    }
}

/// A peer id read from 20 bytes gives those bytes back.
pub proof fn law_peer_id_bytes_round_trip(b: &[u8])
    requires
        b@.len() == 20,
    ensures
        peer_of(b).spec_bytes() == b@,
{
    assert(peer_of(b).spec_bytes() =~= b@);
}

} // verus!
