//! HTTP tracker protocol: announce URLs and compact peer lists.
use vstd::prelude::*;
use vstd::string::{StrSliceExecFns, StringExecFns};
use crate::bencode::{BValue, Value, decoded};
use crate::error::Error;
use crate::metainfo::{field, field_get};

verus! {

/// Lowercase hexadecimal digits, by value.
pub open spec fn hex_digits() -> Seq<char> {
    seq!['0', '1', '2', '3', '4', '5', '6', '7', '8', '9', 'a', 'b', 'c', 'd', 'e', 'f']
}

proof fn lemma_hex_literal()
    ensures
        "0123456789abcdef"@ == hex_digits(),
        vstd::string::is_ascii("0123456789abcdef"),
        "%"@ == seq!['%'],
{
    reveal_strlit("0123456789abcdef");
    reveal_strlit("%");
    assert("0123456789abcdef"@ =~= hex_digits());
    assert("%"@ =~= seq!['%']);
}

/// Each byte as `%` and two lowercase hexadecimal digits.
pub open spec fn pct_encoded(b: Seq<u8>) -> Seq<char>
    decreases b.len(),
{
    if b.len() == 0 {
        Seq::empty()
    } else {
        pct_encoded(b.drop_last()) + seq!['%', hex_digits()[b.last() as int / 16], hex_digits()[b.last() as int % 16]]
    }
}

/// Shortest decimal text of a natural number.
pub open spec fn decimal_text(n: nat) -> Seq<char>
    decreases n,
{
    if n < 10 {
        seq![hex_digits()[n as int]]
    } else {
        decimal_text(n / 10).push(hex_digits()[(n % 10) as int])
    }
}

/// Appends the digit `d`.
fn append_digit(out: &mut String, d: u64)
    requires
        d < 16,
    ensures
        final(out)@ == old(out)@.push(hex_digits()[d as int]),
{
    proof {
        lemma_hex_literal();
    }
    let digits = "0123456789abcdef";
    let s = digits.substring_ascii(d as usize, d as usize + 1);
    out.append(s);
    assert(final(out)@ =~= old(out)@.push(hex_digits()[d as int]));
}

/// Appends the decimal text of `n`.
fn append_decimal(out: &mut String, n: u64)
    ensures
        final(out)@ == old(out)@ + decimal_text(n as nat),
    decreases n,
{
    if n >= 10 {
        append_decimal(out, n / 10);
    }
    append_digit(out, n % 10);
    assert(final(out)@ =~= old(out)@ + decimal_text(n as nat));
}

/// Appends the byte-wise percent-encoding of `bytes`.
fn append_pct(out: &mut String, bytes: &[u8])
    ensures
        final(out)@ == old(out)@ + pct_encoded(bytes@),
{
    let ghost start = out@;
    let mut i: usize = 0;
    while i < bytes.len()
        invariant
            i <= bytes@.len(),
            out@ == start + pct_encoded(bytes@.take(i as int)),
        decreases bytes@.len() - i,
    {
        proof {
            lemma_hex_literal();
        }
        out.append("%");
        append_digit(out, (bytes[i] / 16) as u64);
        append_digit(out, (bytes[i] % 16) as u64);
        assert(bytes@.take(i + 1).drop_last() =~= bytes@.take(i as int));
        i = i + 1;
        assert(out@ =~= start + pct_encoded(bytes@.take(i as int)));
    }
    assert(bytes@.take(i as int) =~= bytes@);
}

/// Length and shape of the percent-encoding: for every byte, `%` and its
/// two lowercase hexadecimal digits, whatever the byte's value.
pub proof fn lemma_pct_encoded_shape(b: Seq<u8>)
    ensures
        pct_encoded(b).len() == 3 * b.len(),
        forall|i: int| 0 <= i < b.len() ==> {
            &&& #[trigger] pct_encoded(b)[3 * i] == '%'
            &&& pct_encoded(b)[3 * i + 1] == hex_digits()[b[i] as int / 16]
            &&& pct_encoded(b)[3 * i + 2] == hex_digits()[b[i] as int % 16]
        },
    decreases b.len(),
{
    if b.len() > 0 {
        let p = b.drop_last();
        lemma_pct_encoded_shape(p);
        assert forall|i: int| 0 <= i < b.len() implies {
            &&& #[trigger] pct_encoded(b)[3 * i] == '%'
            &&& pct_encoded(b)[3 * i + 1] == hex_digits()[b[i] as int / 16]
            &&& pct_encoded(b)[3 * i + 2] == hex_digits()[b[i] as int % 16]
        } by {
            if i < p.len() {
                assert(pct_encoded(p)[3 * i] == '%');
                assert(b[i] == p[i]);
            }
        }
    }
}

/// Announce event.
#[derive(Clone, Copy, Debug, PartialEq, Eq, Structural)]
pub enum TrackerEvent {
    Started,
    Stopped,
    Completed,
}

/// The word for an event in an announce request.
pub open spec fn event_text(e: TrackerEvent) -> Seq<char> {
    match e {
        TrackerEvent::Started => "started"@,
        TrackerEvent::Stopped => "stopped"@,
        TrackerEvent::Completed => "completed"@,
    }
}

/// Request sent to a tracker.
#[derive(Clone, Debug)]
pub struct TrackerRequest {
    /// Info hash identifying the torrent.
    pub info_hash: [u8; 20],
    /// Our peer id.
    pub peer_id: [u8; 20],
    /// Port we listen on.
    pub port: u16,
    /// Bytes uploaded this session.
    pub uploaded: u64,
    /// Bytes downloaded this session.
    pub downloaded: u64,
    /// Bytes left to download.
    pub left: u64,
    /// Ask for the compact peer format.
    pub compact: bool,
    /// Event, if any.
    pub event: Option<TrackerEvent>,
}

/// The query string of an announce request, parameters in fixed order.
pub open spec fn announce_query(r: TrackerRequest) -> Seq<char> {
    "info_hash="@ + pct_encoded(r.info_hash@) + "&peer_id="@ + pct_encoded(r.peer_id@) + "&port="@
        + decimal_text(r.port as nat) + "&uploaded="@ + decimal_text(r.uploaded as nat) + "&downloaded="@
        + decimal_text(r.downloaded as nat) + "&left="@ + decimal_text(r.left as nat) + "&compact="@
        + (if r.compact { "1"@ } else { "0"@ }) + match r.event {
        Some(e) => "&event="@ + event_text(e),
        None => Seq::empty(),
    }
}

impl TrackerRequest {
    /// A request for starting a download: nothing transferred yet,
    /// `total_size` bytes left, compact peers, event `started`.
    pub fn new_started(info_hash: [u8; 20], peer_id: [u8; 20], port: u16, total_size: u64) -> (r: Self)
        ensures
            r.info_hash == info_hash,
            r.peer_id == peer_id,
            r.port == port,
            r.uploaded == 0,
            r.downloaded == 0,
            r.left == total_size,
            r.compact,
            r.event == Some(TrackerEvent::Started),
    {
        TrackerRequest {
            info_hash,
            peer_id,
            port,
            uploaded: 0,
            downloaded: 0,
            left: total_size,
            compact: true,
            event: Some(TrackerEvent::Started),
        }
    }
}

/// HTTP tracker client.
pub struct Tracker {
    announce_url: String,
}

/// Whether `url::Url::parse` accepts a text.
pub uninterp spec fn url_accepts(base: Seq<char>) -> bool;

/// The serialization of a parsed URL once its query is set.
pub uninterp spec fn url_with_query(base: Seq<char>, query: Seq<char>) -> Seq<char>;

/// Relies on `url::Url::parse` (fails exactly where the text is no valid
/// URL), `Url::set_query` and the URL's serialization; the result depends on
/// the two texts alone.
#[verifier::external_body]
fn join_url(base: &str, query: &str) -> (r: Result<String, url::ParseError>)
    ensures
        r is Ok <==> url_accepts(base@),
        r matches Ok(s) ==> s@ == url_with_query(base@, query@),
{
    let mut u = url::Url::parse(base)?;
    u.set_query(Some(query));
    Ok(u.into())
}

/// The query already present in a URL, as `url::Url::parse` reads it.
pub uninterp spec fn url_query_of(base: Seq<char>) -> Option<Seq<char>>;

/// Relies on `url::Url::parse` and `Url::query`: the query already present
/// in the URL, without its `?`; it depends on the text alone.
#[verifier::external_body]
fn existing_query(base: &str) -> (r: Result<Option<String>, url::ParseError>)
    ensures
        r is Ok <==> url_accepts(base@),
        r matches Ok(Some(q)) ==> url_query_of(base@) == Some(q@),
        r matches Ok(None) ==> url_query_of(base@) is None,
{
    let u = url::Url::parse(base)?;
    Ok(u.query().map(String::from))
}

/// The announce query after any query the URL already has, joined by `&`.
pub open spec fn joined_query(existing: Option<Seq<char>>, q: Seq<char>) -> Seq<char> {
    match existing {
        Some(e) => if e.len() > 0 { e + "&"@ + q } else { q },
        None => q,
    }
}

impl Tracker {
    /// A client for the tracker at `announce_url`.
    pub fn new(announce_url: String) -> (r: Self)
        ensures
            r.url() == announce_url@,
    {
        Tracker { announce_url }
    }

    /// The announce URL this client talks to.
    pub closed spec fn url(&self) -> Seq<char> {
        self.announce_url@
    }

    /// Byte-wise percent-encoding: every byte becomes `%` and two lowercase
    /// hexadecimal digits, alphanumerics included.
    pub fn url_encode_bytes(bytes: &[u8]) -> (r: String)
        ensures
            r@ == pct_encoded(bytes@),
            r@.len() == 3 * bytes@.len(),
            forall|i: int| 0 <= i < bytes@.len() ==> {
                &&& #[trigger] r@[3 * i] == '%'
                &&& r@[3 * i + 1] == hex_digits()[bytes@[i] as int / 16]
                &&& r@[3 * i + 2] == hex_digits()[bytes@[i] as int % 16]
            },
    {
        let mut out = String::new();
        append_pct(&mut out, bytes);
        proof {
            lemma_pct_encoded_shape(bytes@);
        }
        out
    }

    /// The query string of an announce request.
    pub fn build_query(req: &TrackerRequest) -> (r: String)
        ensures
            r@ == announce_query(*req),
    {
        let mut out = String::new();
        out.append("info_hash=");
        append_pct(&mut out, req.info_hash.as_slice());
        out.append("&peer_id=");
        append_pct(&mut out, req.peer_id.as_slice());
        out.append("&port=");
        append_decimal(&mut out, req.port as u64);
        out.append("&uploaded=");
        append_decimal(&mut out, req.uploaded);
        out.append("&downloaded=");
        append_decimal(&mut out, req.downloaded);
        out.append("&left=");
        append_decimal(&mut out, req.left);
        out.append("&compact=");
        if req.compact {
            out.append("1");
        } else {
            out.append("0");
        }
        match req.event {
            Some(e) => {
                out.append("&event=");
                let w = match e {
                    TrackerEvent::Started => "started",
                    TrackerEvent::Stopped => "stopped",
                    TrackerEvent::Completed => "completed",
                };
                out.append(w);
            },
            None => {},
        }
        assert(out@ =~= announce_query(*req));
        out
    }

    /// The announce URL for a request: the tracker's URL with the query of
    /// `build_query` appended to any query it already has. Fails where the
    /// tracker's URL is malformed.
    pub fn build_url(&self, req: &TrackerRequest) -> (r: Result<String, Error>)
        ensures
            r is Ok <==> url_accepts(self.url()),
            r matches Ok(s) ==> s@ == url_with_query(
                self.url(),
                joined_query(url_query_of(self.url()), announce_query(*req)),
            ),
            r matches Err(e) ==> e is UrlParse,
    {
        let q = Tracker::build_query(req);
        let existing = match existing_query(self.announce_url.as_str()) {
            Ok(e) => e,
            Err(e) => {
                return Err(Error::UrlParse(e));
            },
        };
        let full = match existing {
            Some(mut e) => {
                if e.as_str().is_empty() {
                    q
                } else {
                    e.append("&");
                    e.append(q.as_str());
                    e
                }
            },
            None => q,
        };
        match join_url(self.announce_url.as_str(), full.as_str()) {
            Ok(s) => Ok(s),
            Err(e) => Err(Error::UrlParse(e)),
        }
    }
}

/// An IPv4 socket address.
#[derive(Clone, Copy, Debug, PartialEq, Eq)]
pub struct PeerAddr {
    /// Address octets, most significant first.
    pub ip: [u8; 4],
    pub port: u16,
}

impl PeerAddr {
    pub fn ip(&self) -> (r: [u8; 4])
        ensures
            r == self.ip,
    {
        self.ip
    }

    pub fn port(&self) -> (r: u16)
        ensures
            r == self.port,
    {
        self.port
    }
}

/// The `i`-th peer of a compact list: four address bytes, then the port in
/// big-endian order.
pub open spec fn compact_peer(b: Seq<u8>, i: int) -> (Seq<u8>, nat) {
    (b.subrange(6 * i, 6 * i + 4), b[6 * i + 4] as nat * 256 + b[6 * i + 5] as nat)
}

pub open spec fn peer_view(p: PeerAddr) -> (Seq<u8>, nat) {
    (p.ip@, p.port as nat)
}

/// Response of a tracker.
#[derive(Clone, Debug)]
pub struct TrackerResponse {
    /// Seconds to wait before announcing again.
    pub interval: u32,
    /// Peer addresses, in the order the tracker sent them.
    pub peers: Vec<PeerAddr>,
    /// Number of seeders, where given.
    pub seeders: Option<u32>,
    /// Number of leechers, where given.
    pub leechers: Option<u32>,
}

/// Mathematical model of a tracker response.
pub struct ResponseView {
    pub interval: nat,
    pub peers: Seq<(Seq<u8>, nat)>,
    pub seeders: Option<nat>,
    pub leechers: Option<nat>,
}

impl View for TrackerResponse {
    type V = ResponseView;

    open spec fn view(&self) -> ResponseView {
        ResponseView {
            interval: self.interval as nat,
            peers: Seq::new(self.peers@.len(), |i: int| peer_view(self.peers@[i])),
            seeders: match self.seeders {
                Some(n) => Some(n as nat),
                None => None,
            },
            leechers: match self.leechers {
                Some(n) => Some(n as nat),
                None => None,
            },
        }
    }
}

/// A count that fits in 32 bits.
pub open spec fn u32_count(v: BValue) -> Option<nat> {
    match v {
        BValue::Int(n) => if 0 <= n <= u32::MAX { Some(n as nat) } else { None },
        _ => None,
    }
}

/// An optional count: absent, or present and a 32-bit count.
pub open spec fn optional_count(f: Option<BValue>) -> Option<Option<nat>> {
    match f {
        None => Some(None),
        Some(v) => match u32_count(v) {
            Some(n) => Some(Some(n)),
            None => None,
        },
    }
}

/// What a decoded announce response says, if it is one: an `interval`, a
/// compact `peers` list, optional `complete` and `incomplete` counts.
pub open spec fn response_of(v: BValue) -> Option<ResponseView> {
    let interval = match field(v, "interval") { Some(i) => u32_count(i), None => None };
    let peers = field(v, "peers");
    let seeders = optional_count(field(v, "complete"));
    let leechers = optional_count(field(v, "incomplete"));
    if interval is Some && (peers matches Some(BValue::Bytes(p)) && p.len() % 6 == 0) && seeders is Some
        && leechers is Some {
        let p = peers->Some_0->Bytes_0;
        Some(ResponseView {
            interval: interval->Some_0,
            peers: Seq::new(p.len() / 6, |i: int| compact_peer(p, i)),
            seeders: seeders->Some_0,
            leechers: leechers->Some_0,
        })
    } else {
        None
    }
}

fn protocol_error(msg: &str) -> (r: Error)
    ensures
        r is Tracker,
{
    Error::Tracker(String::from_str(msg))
}

fn count_u32(v: &Value) -> (r: Option<u32>)
    ensures
        match r {
            Some(n) => u32_count(v@) == Some(n as nat),
            None => u32_count(v@) is None,
        },
{
    match v {
        Value::Int(n) => if 0 <= *n && *n <= 4294967295 { Some(*n as u32) } else { None },
        _ => None,
    }
}

fn optional_count_field(v: &Value, k: &str) -> (r: Result<Option<u32>, ()>)
    ensures
        match r {
            Ok(Some(n)) => optional_count(field(v@, k)) == Some(Some(n as nat)),
            Ok(None) => optional_count(field(v@, k)) == Some(None::<nat>),
            Err(_) => optional_count(field(v@, k)) is None,
        },
{
    match field_get(v, k) {
        None => Ok(None),
        Some(x) => match count_u32(x) {
            Some(n) => Ok(Some(n)),
            None => Err(()),
        },
    }
}

impl Tracker {
    /// Decodes a compact peer list: six bytes per peer, four of address and
    /// two of big-endian port, in order. A length that is not a multiple of
    /// six is refused.
    pub fn parse_compact_peers(data: &[u8]) -> (r: Result<Vec<PeerAddr>, Error>)
        ensures
            r is Ok <==> data@.len() % 6 == 0,
            r matches Ok(p) ==> p@.len() == data@.len() / 6 && forall|i: int|
                0 <= i < p@.len() ==> peer_view(#[trigger] p@[i]) == compact_peer(data@, i),
            r matches Err(e) ==> e is Tracker,
    {
        if data.len() % 6 != 0 {
            return Err(protocol_error("compact peer list length is not a multiple of 6"));
        }
        let len = data.len();
        let n = len / 6;
        let mut peers: Vec<PeerAddr> = Vec::new();
        let mut i: usize = 0;
        while i < n
            invariant
                len == data@.len(),
                n == len / 6,
                len % 6 == 0,
                i <= n,
                peers@.len() == i,
                forall|k: int| 0 <= k < i ==> peer_view(#[trigger] peers@[k]) == compact_peer(data@, k),
            decreases n - i,
        {
            let k = 6 * i;
            let ip = [data[k], data[k + 1], data[k + 2], data[k + 3]];
            let port = data[k + 4] as u16 * 256 + data[k + 5] as u16;
            let p = PeerAddr { ip, port };
            assert(p.ip@ =~= data@.subrange(6 * i as int, 6 * i + 4));
            peers.push(p);
            i = i + 1;
        }
        Ok(peers)
    }

    /// Reads an announce response body. A body that is not bencode, not a
    /// dictionary, lacks `interval` or `peers`, or has fields of the wrong
    /// kind gives a `Tracker` error.
    pub fn parse_response(body: &[u8]) -> (r: Result<TrackerResponse, Error>)
        ensures
            match decoded(body@) {
                None => r matches Err(e) && e is Tracker,
                Some(v) => match response_of(v) {
                    Some(m) => r matches Ok(x) && x@ == m,
                    None => r matches Err(e) && e is Tracker,
                },
            },
    {
        let v = match Value::decode(body) {
            Ok(v) => v,
            Err(_) => {
                return Err(protocol_error("response is not bencode"));
            },
        };
        let interval = match field_get(&v, "interval") {
            Some(i) => match count_u32(i) {
                Some(n) => n,
                None => {
                    return Err(protocol_error("interval is not a 32-bit count"));
                },
            },
            None => {
                return Err(protocol_error("missing interval"));
            },
        };
        let seeders = match optional_count_field(&v, "complete") {
            Ok(c) => c,
            Err(_) => {
                return Err(protocol_error("complete is not a 32-bit count"));
            },
        };
        let leechers = match optional_count_field(&v, "incomplete") {
            Ok(c) => c,
            Err(_) => {
                return Err(protocol_error("incomplete is not a 32-bit count"));
            },
        };
        let peers = match field_get(&v, "peers") {
            Some(Value::Bytes(b)) => match Tracker::parse_compact_peers(b.as_slice()) {
                Ok(p) => p,
                Err(e) => {
                    return Err(e);
                },
            },
            _ => {
                return Err(protocol_error("missing compact peers"));
            },
        };
        let r = TrackerResponse { interval, peers, seeders, leechers };
        proof {
            let m = response_of(v@)->Some_0;
            assert(r@.peers =~= m.peers);
        }
        Ok(r)
    }
}

} // verus!
