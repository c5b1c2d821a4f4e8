//! The tracker announce protocol: classifying announce URLs, the HTTP query
//! string, and the UDP connect and announce packets.
use vstd::prelude::*;
use vstd::utf8::*;
use crate::encode::push_decimal;
use crate::grammar::{all_digits, nat_digits};
use crate::infohash::{url_encoded_of, InfoHashEncoded};
use crate::outside::{urlencode_pairs, urlencoded_of, utf8_text};
use crate::peer_id::{be32, be32_bytes, be64, be64_bytes, PeerID};
use crate::value::{is_ascii_bytes, text_bytes};

verus! {

broadcast use vstd::std_specs::vec::group_vec_axioms, vstd::seq::group_seq_axioms;

/// The magic number that opens every UDP connect request.
pub const UDP_PROTOCOL_ID: i64 = 0x41727101980;

/// The transaction id used when none is drawn.
pub const UDP_TRANSACTION_ID: i32 = 696969;

pub open spec fn starts_with(s: Seq<u8>, p: Seq<u8>) -> bool {
    p.len() <= s.len() && s.subrange(0, p.len() as int) == p
}

fn bytes_start_with(s: &[u8], p: &[u8]) -> (r: bool)
    ensures
        r == starts_with(s@, p@),
{
    if p.len() > s.len() {
        return false;
    }
    let mut i: usize = 0;
    while i < p.len()
        invariant
            p@.len() <= s@.len(),
            0 <= i <= p@.len(),
            forall|j: int| 0 <= j < i ==> s@[j] == p@[j],
        decreases p@.len() - i,
    {
        if s[i] != p[i] {
            assert(s@.subrange(0, p@.len() as int)[i as int] != p@[i as int]);
            return false;
        }
        i = i + 1;
    }
    assert(s@.subrange(0, p@.len() as int) =~= p@);
    true
}

/// An announce URL, classified by its scheme.
#[derive(Debug, Clone)]
pub enum Tracker {
    Http(String),
    Udp(String),
    Invalid(String),
}

impl Tracker {
    /// Classifies `url`: `http…` and `udp…` are the supported schemes.
    pub fn new(url: &str) -> (r: Tracker)
        ensures
            classified(r) && r.spec_url() == url@,
            starts_with(encode_utf8(url@), encode_utf8("http"@)) ==> (r matches Tracker::Http(u) && u@ == url@),
            !starts_with(encode_utf8(url@), encode_utf8("http"@)) && starts_with(encode_utf8(url@), encode_utf8("udp"@))
                ==> (r matches Tracker::Udp(u) && u@ == url@),
            !starts_with(encode_utf8(url@), encode_utf8("http"@)) && !starts_with(encode_utf8(url@), encode_utf8("udp"@))
                ==> (r matches Tracker::Invalid(u) && u@ == url@),
    {
        if bytes_start_with(url.as_bytes(), "http".as_bytes()) {
            Tracker::Http(url.to_string())
        } else if bytes_start_with(url.as_bytes(), "udp".as_bytes()) {
            Tracker::Udp(url.to_string())
        } else {
            Tracker::Invalid(url.to_string())
        }
    }

    pub open spec fn spec_url(&self) -> Seq<char> {
        match self {
            Tracker::Http(u) => u@,
            Tracker::Udp(u) => u@,
            Tracker::Invalid(u) => u@,
        }
    }

    /// The announce URL.
    pub fn url(&self) -> (r: &str)
        ensures
            r@ == self.spec_url(),
    {
        match self {
            Tracker::Http(u) => u.as_str(),
            Tracker::Udp(u) => u.as_str(),
            Tracker::Invalid(u) => u.as_str(),
        }
    }

    /// The request for one announce attempt. A UDP tracker needs the
    /// connection id of a completed connect handshake; an unsupported scheme
    /// fails with a message that names the URL.
    pub fn generate_request(&self, info_hash: InfoHashEncoded, peer_id: PeerID, connection_id: Option<i64>) -> (r: Result<TrackerRequest, String>)
        ensures
            self is Http ==> (r matches Ok(TrackerRequest::Http { url, params }) && url@ == self.spec_url()
                && params == HttpTrackerRequestParams::spec_new(info_hash, peer_id)),
            self is Udp && connection_id is Some ==> (r matches Ok(TrackerRequest::Udp { url, connection_id: c, params })
                && url@ == self.spec_url() && Some(c) == connection_id
                && params == UdpTrackerRequestParams::spec_new(c, info_hash, peer_id)),
            self is Udp && connection_id is None ==> r is Err,
            self is Invalid ==> (r matches Err(e) && e@ == "Unsupported : "@ + self.spec_url()),
    {
        match self {
            Tracker::Http(u) => Ok(TrackerRequest::Http { url: u.clone(), params: HttpTrackerRequestParams::new(info_hash, peer_id) }),
            Tracker::Udp(u) => match connection_id {
                Some(c) => Ok(TrackerRequest::Udp {
                    url: u.clone(),
                    connection_id: c,
                    params: UdpTrackerRequestParams::new(c, info_hash, peer_id),
                }),
                None => Err("A UDP tracker needs a connection id".to_string()),
            },
            Tracker::Invalid(u) => {
                let mut msg = "Unsupported : ".to_string();
                msg.append(u.as_str());
                Err(msg)
            },
        }
    }
}

/// `t` is what [`Tracker::new`] makes of its URL.
pub open spec fn classified(t: Tracker) -> bool {
    let u = encode_utf8(t.spec_url());
    if starts_with(u, encode_utf8("http"@)) {
        t is Http
    } else if starts_with(u, encode_utf8("udp"@)) {
        t is Udp
    } else {
        t is Invalid
    }
}

/// The trackers of a torrent, in announce order.
#[derive(Debug, Clone)]
pub struct TrackerList {
    tracker_list: Vec<Tracker>,
}

impl TrackerList {
    pub closed spec fn spec_list(&self) -> Seq<Tracker> {
        self.tracker_list@
    }

    pub fn new(tracker_list: Vec<Tracker>) -> (r: TrackerList)
        ensures
            r.spec_list() == tracker_list@,
    {
        TrackerList { tracker_list }
    }

    pub fn as_array(&self) -> (r: &[Tracker])
        ensures
            r@ == self.spec_list(),
    {
        self.tracker_list.as_slice()
    }

    pub fn into_vec(self) -> (r: Vec<Tracker>)
        ensures
            r@ == self.spec_list(),
    {
        self.tracker_list
    }

    pub fn len(&self) -> (r: usize)
        ensures
            r == self.spec_list().len(),
    {
        self.tracker_list.len()
    }
}

/// The decimal digit `d < 10` as a character.
pub open spec fn digit_char(d: int) -> char {
    if d == 0 { '0' } else if d == 1 { '1' } else if d == 2 { '2' } else if d == 3 { '3' }
    else if d == 4 { '4' } else if d == 5 { '5' } else if d == 6 { '6' } else if d == 7 { '7' }
    else if d == 8 { '8' } else { '9' }
}

/// The shortest decimal digits of `n`, as characters.
pub open spec fn nat_chars(n: nat) -> Seq<char>
    decreases n,
{
    if n < 10 {
        seq![digit_char(n as int)]
    } else {
        nat_chars(n / 10).push(digit_char((n % 10) as int))
    }
}

/// Decimal form of `n`, with `-` when negative.
pub open spec fn int_chars(n: int) -> Seq<char> {
    if n < 0 {
        seq!['-'] + nat_chars((-n) as nat)
    } else {
        nat_chars(n as nat)
    }
}

fn digit_str(d: u64) -> (r: &'static str)
    requires
        d < 10,
    ensures
        r@ == seq![digit_char(d as int)],
{
    proof {
        reveal_strlit("0");
        reveal_strlit("1");
        reveal_strlit("2");
        reveal_strlit("3");
        reveal_strlit("4");
        reveal_strlit("5");
        reveal_strlit("6");
        reveal_strlit("7");
        reveal_strlit("8");
        reveal_strlit("9");
    }
    if d == 0 { "0" } else if d == 1 { "1" } else if d == 2 { "2" } else if d == 3 { "3" }
    else if d == 4 { "4" } else if d == 5 { "5" } else if d == 6 { "6" } else if d == 7 { "7" }
    else if d == 8 { "8" } else { "9" }
}

/// Appends the decimal digits of `n`.
fn push_nat_chars(s: &mut String, n: u64)
    ensures
        final(s)@ == old(s)@ + nat_chars(n as nat),
    decreases n,
{
    if n >= 10 {
        push_nat_chars(s, n / 10);
    }
    s.append(digit_str(n % 10));
    assert(s@ =~= old(s)@ + nat_chars(n as nat));
}

/// Appends the decimal form of `n`.
fn push_int_chars(s: &mut String, n: i32)
    ensures
        final(s)@ == old(s)@ + int_chars(n as int),
{
    if n < 0 {
        proof {
            reveal_strlit("-");
        }
        s.append("-");
        let m: u64 = (-(n as i64)) as u64;
        push_nat_chars(s, m);
        assert(s@ =~= old(s)@ + int_chars(n as int));
    } else {
        push_nat_chars(s, n as u64);
    }
}

/// The announce lifecycle event.
#[derive(Debug, Clone, Copy, PartialEq, Eq, Structural)]
pub enum Event {
    Empty,
    Completed,
    Started,
    Stopped,
}

impl Event {
    pub open spec fn spec_code(&self) -> i32 {
        match self {
            Event::Empty => 0,
            Event::Completed => 1,
            Event::Started => 2,
            Event::Stopped => 3,
        }
    }

    /// The event with wire code `num`.
    pub fn from_i32(num: i32) -> (r: Result<Event, String>)
        ensures
            r is Ok <==> 0 <= num <= 3,
            r matches Ok(e) ==> e.spec_code() == num,
            r matches Err(m) ==> m@ == "Invalid event parameter: "@ + int_chars(num as int),
    {
        match num {
            0 => Ok(Event::Empty),
            1 => Ok(Event::Completed),
            2 => Ok(Event::Started),
            3 => Ok(Event::Stopped),
            _ => {
                let mut m = "Invalid event parameter: ".to_string();
                push_int_chars(&mut m, num);
                Err(m)
            },
        }
    }

    /// The wire code of the event.
    pub fn code(&self) -> (r: i32)
        ensures
            r == self.spec_code(),
    {
        match self {
            Event::Empty => 0,
            Event::Completed => 1,
            Event::Started => 2,
            Event::Stopped => 3,
        }
    }

    pub open spec fn spec_name(&self) -> Seq<u8> {
        match self {
            Event::Empty => encode_utf8("none"@),
            Event::Completed => encode_utf8("completed"@),
            Event::Started => encode_utf8("started"@),
            Event::Stopped => encode_utf8("stopped"@),
        }
    }

    /// The lowercase name used in HTTP queries.
    pub fn name(&self) -> (r: String)
        ensures
            text_bytes(r) == self.spec_name(),
    {
        match self {
            Event::Empty => "none".to_string(),
            Event::Completed => "completed".to_string(),
            Event::Started => "started".to_string(),
            Event::Stopped => "stopped".to_string(),
        }
    }
}

/// The action word of a UDP tracker message.
#[derive(Debug, Clone, Copy, PartialEq, Eq, Structural)]
pub enum Action {
    Connect,
    Announce,
    Scrape,
    Error,
}

impl Action {
    pub open spec fn spec_code(&self) -> i32 {
        match self {
            Action::Connect => 0,
            Action::Announce => 1,
            Action::Scrape => 2,
            Action::Error => 3,
        }
    }

    /// The action with wire code `num`.
    pub fn from_i32(num: i32) -> (r: Result<Action, String>)
        ensures
            r is Ok <==> 0 <= num <= 3,
            r matches Ok(a) ==> a.spec_code() == num,
            r matches Err(m) ==> m@ == "Invalid action parameter: "@ + int_chars(num as int),
    {
        match num {
            0 => Ok(Action::Connect),
            1 => Ok(Action::Announce),
            2 => Ok(Action::Scrape),
            3 => Ok(Action::Error),
            _ => {
                let mut m = "Invalid action parameter: ".to_string();
                push_int_chars(&mut m, num);
                Err(m)
            },
        }
    }

    pub fn code(&self) -> (r: i32)
        ensures
            r == self.spec_code(),
    {
        match self {
            Action::Connect => 0,
            Action::Announce => 1,
            Action::Scrape => 2,
            Action::Error => 3,
        }
    }
}

/// A session id that a tracker handed out in an earlier response.
#[derive(Debug, Clone)]
pub struct TrackerID {
    pub id: String,
}

/// The parameters of an HTTP announce.
#[derive(Debug, Clone)]
pub struct HttpTrackerRequestParams {
    pub info_hash: InfoHashEncoded,
    pub peer_id: PeerID,
    pub port: u16,
    pub uploaded: usize,
    pub downloaded: usize,
    pub left: usize,
    pub compact: bool,
    pub no_peer_id: bool,
    pub event: Option<Event>,
    pub ip: Option<String>,
    pub numwant: Option<usize>,
    pub key: Option<String>,
    pub trackerid: Option<TrackerID>,
}

/// Decimal digits of `n` as text.
pub fn decimal_string(n: u64) -> (r: String)
    ensures
        text_bytes(r) == nat_digits(n as nat),
{
    let mut b: Vec<u8> = Vec::new();
    push_decimal(&mut b, n);
    proof {
        assert(b@ =~= nat_digits(n as nat));
        crate::laws::lemma_nat_digits(n as nat);
        assert(is_ascii_bytes(b@)) by {
            assert forall|i: int| 0 <= i < b@.len() implies b@[i] < 128 by {
                assert(all_digits(nat_digits(n as nat)));
            }
        }
        crate::decode::lemma_ascii_valid_utf8(b@);
    }
    match utf8_text(b) {
        Some(s) => s,
        None => String::new(),
    }
}

/// The pairs as UTF-8 bytes.
pub open spec fn pairs_view(r: Seq<(String, String)>) -> Seq<(Seq<u8>, Seq<u8>)> {
    Seq::new(r.len(), |i: int| (encode_utf8(r[i].0@), encode_utf8(r[i].1@)))
}

fn push_pair(r: &mut Vec<(String, String)>, k: String, v: String)
    ensures
        pairs_view(final(r)@) == pairs_view(old(r)@).push((encode_utf8(k@), encode_utf8(v@))),
{
    let ghost kv = (encode_utf8(k@), encode_utf8(v@));
    r.push((k, v));
    assert(pairs_view(r@) =~= pairs_view(old(r)@).push(kv));
}

pub open spec fn flag_bytes(b: bool) -> Seq<u8> {
    if b {
        nat_digits(1)
    } else {
        nat_digits(0)
    }
}

pub open spec fn opt_pair(k: &str, v: Option<Seq<u8>>) -> Seq<(Seq<u8>, Seq<u8>)> {
    match v {
        Some(x) => seq![(encode_utf8(k@), x)],
        None => Seq::empty(),
    }
}

impl HttpTrackerRequestParams {
    pub open spec fn spec_new(info_hash: InfoHashEncoded, peer_id: PeerID) -> HttpTrackerRequestParams {
        HttpTrackerRequestParams {
            info_hash,
            peer_id,
            port: 6881,
            uploaded: 0,
            downloaded: 0,
            left: 0,
            compact: true,
            no_peer_id: false,
            event: Some(Event::Started),
            ip: None,
            numwant: Some(0),
            key: None,
            trackerid: None,
        }
    }

    /// The parameters of a first announce: it starts the download.
    pub fn new(info_hash: InfoHashEncoded, peer_id: PeerID) -> (r: HttpTrackerRequestParams)
        ensures
            r == Self::spec_new(info_hash, peer_id),
    {
        HttpTrackerRequestParams {
            info_hash,
            peer_id,
            port: 6881,
            uploaded: 0,
            downloaded: 0,
            left: 0,
            compact: true,
            no_peer_id: false,
            event: Some(Event::Started),
            ip: None,
            numwant: Some(0),
            key: None,
            trackerid: None,
        }
    }

    /// The name/value pairs of the query after `info_hash` and `peer_id`, in
    /// order; absent optional parameters, and an empty event, are left out.
    pub open spec fn spec_pairs(&self) -> Seq<(Seq<u8>, Seq<u8>)> {
        seq![
            (encode_utf8("port"@), nat_digits(self.port as nat)),
            (encode_utf8("uploaded"@), nat_digits(self.uploaded as nat)),
            (encode_utf8("downloaded"@), nat_digits(self.downloaded as nat)),
            (encode_utf8("left"@), nat_digits(self.left as nat)),
            (encode_utf8("compact"@), flag_bytes(self.compact)),
            (encode_utf8("no_peer_id"@), flag_bytes(self.no_peer_id)),
        ] + opt_pair("event", match self.event {
            Some(e) => if e is Empty {
                None
            } else {
                Some(e.spec_name())
            },
            None => None,
        }) + opt_pair("ip", match self.ip {
            Some(s) => Some(text_bytes(s)),
            None => None,
        }) + opt_pair("numwant", match self.numwant {
            Some(n) => Some(nat_digits(n as nat)),
            None => None,
        }) + opt_pair("key", match self.key {
            Some(s) => Some(text_bytes(s)),
            None => None,
        }) + opt_pair("trackerid", match self.trackerid {
            Some(t) => Some(text_bytes(t.id)),
            None => None,
        })
    }

    /// The query pairs as strings.
    #[verifier::rlimit(60)]
    pub fn query_pairs(&self) -> (r: Vec<(String, String)>)
        ensures
            pairs_view(r@) == self.spec_pairs(),
    {
        let mut r: Vec<(String, String)> = Vec::new();
        push_pair(&mut r, "port".to_string(), decimal_string(self.port as u64));
        push_pair(&mut r, "uploaded".to_string(), decimal_string(self.uploaded as u64));
        push_pair(&mut r, "downloaded".to_string(), decimal_string(self.downloaded as u64));
        push_pair(&mut r, "left".to_string(), decimal_string(self.left as u64));
        push_pair(&mut r, "compact".to_string(), decimal_string(if self.compact { 1 } else { 0 }));
        push_pair(&mut r, "no_peer_id".to_string(), decimal_string(if self.no_peer_id { 1 } else { 0 }));
        let ghost with_counts = pairs_view(r@);
        assert(with_counts =~= seq![
            (encode_utf8("port"@), nat_digits(self.port as nat)),
            (encode_utf8("uploaded"@), nat_digits(self.uploaded as nat)),
            (encode_utf8("downloaded"@), nat_digits(self.downloaded as nat)),
            (encode_utf8("left"@), nat_digits(self.left as nat)),
            (encode_utf8("compact"@), flag_bytes(self.compact)),
            (encode_utf8("no_peer_id"@), flag_bytes(self.no_peer_id)),
        ]);
        if let Some(e) = &self.event {
            if !matches!(e, Event::Empty) {
                push_pair(&mut r, "event".to_string(), e.name());
            }
        }
        let ghost with_event = pairs_view(r@);
        assert(with_event =~= with_counts + opt_pair("event", match self.event {
            Some(e) => if e is Empty {
                None
            } else {
                Some(e.spec_name())
            },
            None => None,
        }));
        if let Some(s) = &self.ip {
            push_pair(&mut r, "ip".to_string(), s.clone());
        }
        let ghost with_ip = pairs_view(r@);
        assert(with_ip =~= with_event + opt_pair("ip", match self.ip {
            Some(s) => Some(text_bytes(s)),
            None => None,
        }));
        if let Some(n) = self.numwant {
            push_pair(&mut r, "numwant".to_string(), decimal_string(n as u64));
        }
        let ghost with_numwant = pairs_view(r@);
        assert(with_numwant =~= with_ip + opt_pair("numwant", match self.numwant {
            Some(n) => Some(nat_digits(n as nat)),
            None => None,
        }));
        if let Some(s) = &self.key {
            push_pair(&mut r, "key".to_string(), s.clone());
        }
        let ghost with_key = pairs_view(r@);
        assert(with_key =~= with_numwant + opt_pair("key", match self.key {
            Some(s) => Some(text_bytes(s)),
            None => None,
        }));
        if let Some(t) = &self.trackerid {
            push_pair(&mut r, "trackerid".to_string(), t.id.clone());
        }
        assert(pairs_view(r@) =~= with_key + opt_pair("trackerid", match self.trackerid {
            Some(t) => Some(text_bytes(t.id)),
            None => None,
        }));
        r
    }

    /// The full announce URL: `announce?info_hash=…&peer_id=…&<query>`.
    pub fn to_url(&self, announce: &str) -> (r: Result<String, String>)
        ensures
            r is Ok,
            r matches Ok(u) ==> exists|q: Seq<char>|
                encode_utf8(q) == urlencoded_of(self.spec_pairs())
                && u@ == http_url_of(announce@, self.info_hash, self.peer_id, q),
    {
        let pairs = self.query_pairs();
        assert(Seq::new(pairs@.len(), |i: int| (encode_utf8(pairs@[i].0@), encode_utf8(pairs@[i].1@))) == pairs_view(pairs@));
        match urlencode_pairs(&pairs) {
            Some(q) => Ok(http_url(announce, &self.info_hash, &self.peer_id, q.as_str())),
            None => Err("Unable to encode the tracker query".to_string()),
        }
    }
}

pub open spec fn http_url_of(announce: Seq<char>, info_hash: InfoHashEncoded, peer_id: PeerID, query: Seq<char>) -> Seq<char> {
    announce + "?info_hash="@ + url_encoded_of(info_hash.0@) + "&peer_id="@ + url_encoded_of(peer_id.spec_bytes())
        + "&"@ + query
}

/// Joins an announce URL, the percent-encoded info hash and peer id, and an
/// already encoded query.
pub fn http_url(announce: &str, info_hash: &InfoHashEncoded, peer_id: &PeerID, query: &str) -> (r: String)
    ensures
        r@ == http_url_of(announce@, *info_hash, *peer_id, query@),
{
    let mut u = announce.to_string();
    u.append("?info_hash=");
    u.append(info_hash.to_url_encoded().as_str());
    u.append("&peer_id=");
    u.append(peer_id.to_url_encoded().as_str());
    u.append("&");
    u.append(query);
    u
}

/// The parameters of a UDP announce, in wire order.
#[derive(Debug, Clone)]
pub struct UdpTrackerRequestParams {
    pub connection_id: i64,
    pub action: i32,
    pub transaction_id: i32,
    pub info_hash: InfoHashEncoded,
    pub peer_id: PeerID,
    pub downloaded: i64,
    pub left: i64,
    pub uploaded: i64,
    pub event: Event,
    pub ip_address: i32,
    pub key: i32,
    pub num_want: i32,
    pub port: u16,
}

pub open spec fn be16(x: u16) -> Seq<u8> {
    seq![(x >> 8u16) as u8, x as u8]
}

impl UdpTrackerRequestParams {
    pub open spec fn spec_new(connection_id: i64, info_hash: InfoHashEncoded, peer_id: PeerID) -> UdpTrackerRequestParams {
        UdpTrackerRequestParams {
            connection_id,
            action: 1,
            transaction_id: UDP_TRANSACTION_ID,
            info_hash,
            peer_id,
            downloaded: 0,
            left: 0,
            uploaded: 0,
            event: Event::Empty,
            ip_address: 0,
            key: 0,
            num_want: -1i32,
            port: 6886,
        }
    }

    /// The parameters of an announce over an established connection.
    pub fn new(connection_id: i64, info_hash: InfoHashEncoded, peer_id: PeerID) -> (r: UdpTrackerRequestParams)
        ensures
            r == Self::spec_new(connection_id, info_hash, peer_id),
    {
        UdpTrackerRequestParams {
            connection_id,
            action: 1,
            transaction_id: UDP_TRANSACTION_ID,
            info_hash,
            peer_id,
            downloaded: 0,
            left: 0,
            uploaded: 0,
            event: Event::Empty,
            ip_address: 0,
            key: 0,
            num_want: -1,
            port: 6886,
        }
    }

    /// The 98-byte announce packet.
    pub open spec fn spec_bytes(&self) -> Seq<u8> {
        be64(self.connection_id as u64) + be32(self.action as u32) + be32(self.transaction_id as u32)
            + self.info_hash.0@ + self.peer_id.spec_bytes() + be64(self.downloaded as u64) + be64(self.left as u64)
            + be64(self.uploaded as u64) + be32(self.event.spec_code() as u32) + be32(self.ip_address as u32)
            + be32(self.key as u32) + be32(self.num_want as u32) + be16(self.port)
    }

    /// The announce packet, big-endian, in the field order above.
    pub fn as_bytes(&self) -> (r: Vec<u8>)
        ensures
            r@ == self.spec_bytes(),
    {
        let mut out: Vec<u8> = Vec::new();
        push_all(&mut out, &be64_bytes(self.connection_id as u64));
        push_all(&mut out, &be32_bytes(self.action as u32));
        push_all(&mut out, &be32_bytes(self.transaction_id as u32));
        push_all(&mut out, &self.info_hash.0);
        push_all(&mut out, &self.peer_id.as_bytes());
        push_all(&mut out, &be64_bytes(self.downloaded as u64));
        push_all(&mut out, &be64_bytes(self.left as u64));
        push_all(&mut out, &be64_bytes(self.uploaded as u64));
        push_all(&mut out, &be32_bytes(self.event.code() as u32));
        push_all(&mut out, &be32_bytes(self.ip_address as u32));
        push_all(&mut out, &be32_bytes(self.key as u32));
        push_all(&mut out, &be32_bytes(self.num_want as u32));
        let p = [(self.port >> 8u16) as u8, self.port as u8];
        assert(p@ =~= be16(self.port));
        push_all(&mut out, &p);
        assert(out@ =~= self.spec_bytes());
        out
    }
}

fn push_all(out: &mut Vec<u8>, b: &[u8])
    ensures
        final(out)@ == old(out)@ + b@,
{
    let mut i: usize = 0;
    while i < b.len()
        invariant
            0 <= i <= b@.len(),
            out@ == old(out)@ + b@.subrange(0, i as int),
        decreases b@.len() - i,
    {
        out.push(b[i]);
        assert(out@ =~= old(out)@ + b@.subrange(0, i + 1));
        i = i + 1;
    }
    assert(b@.subrange(0, b@.len() as int) =~= b@);
}

/// One announce attempt, ready to be sent.
#[derive(Debug, Clone)]
#[allow(inconsistent_fields)]
pub enum TrackerRequest {
    Http { url: String, params: HttpTrackerRequestParams },
    Udp { url: String, connection_id: i64, params: UdpTrackerRequestParams },
}

impl TrackerRequest {
    pub fn is_http(&self) -> (r: bool)
        ensures
            r == self is Http,
    {
        matches!(self, TrackerRequest::Http { .. })
    }

    pub fn is_udp(&self) -> (r: bool)
        ensures
            r == self is Udp,
    {
        matches!(self, TrackerRequest::Udp { .. })
    }

    pub fn connection_id(&self) -> (r: Option<i64>)
        ensures
            self is Udp ==> r == Some(self->Udp_connection_id),
            self is Http ==> r is None,
    {
        match self {
            TrackerRequest::Udp { connection_id, .. } => Some(*connection_id),
            TrackerRequest::Http { .. } => None,
        }
    }

    /// The URL to contact: the full announce URL for HTTP, the tracker URL for UDP.
    pub fn to_url(&self) -> (r: Result<String, String>)
        ensures
            r is Ok,
            self matches TrackerRequest::Http { url, params } ==> (r matches Ok(u) ==> exists|q: Seq<char>|
                encode_utf8(q) == urlencoded_of(params.spec_pairs())
                && u@ == http_url_of(url@, params.info_hash, params.peer_id, q)),
            self matches TrackerRequest::Udp { url, .. } ==> (r matches Ok(u) && u@ == url@),
    {
        match self {
            TrackerRequest::Http { url, params } => params.to_url(url.as_str()),
            TrackerRequest::Udp { url, .. } => Ok(url.clone()),
        }
    }

    /// Sets the uploaded byte count; the UDP field takes it as a signed 64-bit word.
    pub fn set_uploaded(&mut self, uploaded: usize)
        ensures
            (*old(self)) is Http ==> ((*final(self)) is Http && (*final(self))->Http_params.uploaded == uploaded
                && (*final(self))->Http_url == (*old(self))->Http_url),
            (*old(self)) is Udp ==> ((*final(self)) is Udp && (*final(self))->Udp_params.uploaded == uploaded as i64
                && (*final(self))->Udp_url == (*old(self))->Udp_url),
    {
        match self {
            TrackerRequest::Http { params, .. } => {
                params.uploaded = uploaded;
            },
            TrackerRequest::Udp { params, .. } => {
                params.uploaded = uploaded as i64;
            },
        }
    }
}


/// The big-endian 32-bit word at `off`.
pub open spec fn read_be32(b: Seq<u8>, off: int) -> u32 {
    (b[off] as int * 16777216 + b[off + 1] as int * 65536 + b[off + 2] as int * 256 + b[off + 3] as int) as u32
}

/// The big-endian 64-bit word at `off`.
pub open spec fn read_be64(b: Seq<u8>, off: int) -> u64 {
    (read_be32(b, off) as int * 4294967296 + read_be32(b, off + 4) as int) as u64
}

fn be32_at(b: &[u8], off: usize) -> (r: u32)
    requires
        off + 4 <= b@.len(),
    ensures
        r == read_be32(b@, off as int),
{
    (b[off] as u32) * 16777216 + (b[off + 1] as u32) * 65536 + (b[off + 2] as u32) * 256 + (b[off + 3] as u32)
}

fn be64_at(b: &[u8], off: usize) -> (r: u64)
    requires
        off + 8 <= b@.len(),
    ensures
        r == read_be64(b@, off as int),
{
    let _n = b.len();
    let hi = be32_at(b, off);
    let lo = be32_at(b, off + 4);
    (hi as u64) * 4294967296 + (lo as u64)
}

/// A UDP connect request.
#[derive(Debug, Clone, Copy)]
pub struct UdpConnectRequest {
    pub protocol_id: i64,
    pub action: Action,
    pub transaction_id: i32,
}

impl UdpConnectRequest {
    /// A connect request with the given transaction id.
    pub fn new(transaction_id: i32) -> (r: UdpConnectRequest)
        ensures
            r.protocol_id == UDP_PROTOCOL_ID,
            r.action == Action::Connect,
            r.transaction_id == transaction_id,
    {
        UdpConnectRequest { protocol_id: UDP_PROTOCOL_ID, action: Action::Connect, transaction_id }
    }

    /// A connect request with a randomly drawn transaction id.
    pub fn with_random_transaction() -> (r: UdpConnectRequest)
        ensures
            r.protocol_id == UDP_PROTOCOL_ID,
            r.action == Action::Connect,
    {
        let tid: i32 = rand::random();
        UdpConnectRequest::new(tid)
    }

    pub open spec fn spec_bytes(&self) -> Seq<u8> {
        be64(self.protocol_id as u64) + be32(self.action.spec_code() as u32) + be32(self.transaction_id as u32)
    }

    /// The 16-byte packet: protocol id, action, transaction id, big-endian.
    pub fn as_bytes(&self) -> (r: [u8; 16])
        ensures
            r@ == self.spec_bytes(),
    {
        let p = be64_bytes(self.protocol_id as u64);
        let a = be32_bytes(self.action.code() as u32);
        let t = be32_bytes(self.transaction_id as u32);
        let r = [p[0], p[1], p[2], p[3], p[4], p[5], p[6], p[7], a[0], a[1], a[2], a[3], t[0], t[1], t[2], t[3]];
        assert(r@ =~= self.spec_bytes());
        r
    }
}

/// A tracker's answer to a connect request.
#[derive(Debug, Clone, Copy)]
pub struct UdpConnectResponse {
    pub action: Action,
    pub transaction_id: i32,
    pub connection_id: i64,
}

impl UdpConnectResponse {
    /// Reads the answer to `request`. It is accepted exactly when it has at
    /// least 16 bytes, its action is connect, and its transaction id is the
    /// request's.
    pub fn from_bytes(resp: &[u8], request: &UdpConnectRequest) -> (r: Result<UdpConnectResponse, String>)
        ensures
            r is Ok <==> resp@.len() >= 16 && read_be32(resp@, 0) == 0 && read_be32(resp@, 4) == request.transaction_id as u32,
            r matches Ok(x) ==> x.action == Action::Connect && x.transaction_id == request.transaction_id
                && x.connection_id == read_be64(resp@, 8) as i64,
    {
        if resp.len() < 16 {
            return Err("Connect response is shorter than 16 bytes".to_string());
        }
        let action = be32_at(resp, 0);
        if action != 0 {
            return Err("Connect response does not carry the connect action".to_string());
        }
        let tid = be32_at(resp, 4);
        if tid != request.transaction_id as u32 {
            return Err("Invalid response from udp server".to_string());
        }
        let cid = be64_at(resp, 8);
        Ok(UdpConnectResponse { action: Action::Connect, transaction_id: request.transaction_id, connection_id: cid as i64 })
    }
}

pub open spec fn udp_prefix() -> Seq<u8> {
    seq![117u8, 100u8, 112u8, 58u8, 47u8, 47u8]
}

/// The `host:port` of a `udp://host:port/path` URL.
pub open spec fn spec_udp_host(u: Seq<u8>) -> Seq<u8> {
    let rest = u.subrange(6, u.len() as int);
    match crate::grammar::find_byte(rest, 0, 47u8) {
        Some(i) => rest.subrange(0, i),
        None => rest,
    }
}

/// The address to send UDP tracker packets to: what follows `udp://` up to
/// the first `/`. `None` when the URL does not start with `udp://`.
pub fn udp_host(url: &str) -> (r: Option<String>)
    ensures
        !starts_with(encode_utf8(url@), udp_prefix()) ==> r is None,
        r matches Some(h) ==> starts_with(encode_utf8(url@), udp_prefix()) && text_bytes(h) == spec_udp_host(encode_utf8(url@)),
        starts_with(encode_utf8(url@), udp_prefix()) && valid_utf8(spec_udp_host(encode_utf8(url@))) ==> r is Some,
{
    let b = url.as_bytes();
    let prefix = [117u8, 100u8, 112u8, 58u8, 47u8, 47u8];
    assert(prefix@ =~= udp_prefix());
    if !bytes_start_with(b, vstd::array::array_as_slice(&prefix)) {
        return None;
    }
    let rest = vstd::slice::slice_subrange(b, 6, b.len());
    let mut i: usize = 0;
    while i < rest.len() && rest[i] != 47u8
        invariant
            0 <= i <= rest@.len(),
            crate::grammar::find_byte(rest@, 0, 47u8) == crate::grammar::find_byte(rest@, i as int, 47u8),
        decreases rest@.len() - i,
    {
        i = i + 1;
    }
    let host = vstd::slice::slice_to_vec(vstd::slice::slice_subrange(rest, 0, i));
    proof {
        if i == rest@.len() {
            assert(rest@.subrange(0, i as int) =~= rest@);
        }
    }
    utf8_text(host)
}

} // verus!
