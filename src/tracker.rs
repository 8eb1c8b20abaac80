use vstd::prelude::*;
use vstd::string::StringSliceAdditionalSpecFns;
use crate::value::{BValue, BencodeTypes};
use crate::encode::{nat_digits, int_digits, lemma_nat_digits, push_digits, push_int};
use crate::access::{LookupError, spec_get};
use crate::text::{lossy_utf8, ascii_chars, is_ascii_bytes, hex_of, hex_upper, utf8_lossy};

verus! {

/// The bytes an info-hash keeps literally in a tracker query.
pub const UNRESERVED: &'static str = "[0-9a-zA-Z\\.\\-_~]";

/// The peer id this client announces.
pub const PEER_ID: &'static str = "235d860da2a4484c8908";

/// Whether a regular expression matches somewhere in a byte haystack.
pub uninterp spec fn regex_matches(pattern: Seq<char>, haystack: Seq<u8>) -> bool;

/// Whether a pattern is a valid regular expression.
pub uninterp spec fn regex_compiles(pattern: Seq<char>) -> bool;

/// Relies on regex's `bytes::Regex::new`, which fails or not depending on
/// the pattern alone, and `bytes::Regex::is_match`: whether the pattern
/// matches the haystack, which depends on the two alone.
#[verifier::external_body]
fn regex_is_match(pattern: &str, haystack: &[u8]) -> (r: Option<bool>)
    ensures
        r is Some <==> regex_compiles(pattern@),
        r matches Some(m) ==> m == regex_matches(pattern@, haystack@),
{
    match regex::bytes::Regex::new(pattern) {
        Ok(re) => Some(re.is_match(haystack)),
        Err(_) => None,
    }
}

/// One info-hash byte in a query: itself when unreserved, `+` for a space,
/// otherwise `%` and two upper-case hex digits.
pub open spec fn escaped_byte(b: u8, unreserved: bool) -> Seq<u8> {
    if unreserved {
        seq![b]
    } else if b == 32 {
        seq![43u8]
    } else {
        seq![37u8] + hex_of(seq![b], true)
    }
}

/// Escapes one byte, given whether it is unreserved.
pub fn escape_byte(b: u8, unreserved: bool) -> (r: Vec<u8>)
    ensures
        r@ == escaped_byte(b, unreserved),
{
    let mut out: Vec<u8> = Vec::new();
    if unreserved {
        out.push(b);
        assert(out@ =~= seq![b]);
    } else if b == 32 {
        out.push(43u8);
        assert(out@ =~= seq![43u8]);
    } else {
        out.push(37u8);
        let mut one: Vec<u8> = Vec::new();
        one.push(b);
        assert(one@ =~= seq![b]);
        let mut h = hex_upper(one.as_slice());
        out.append(&mut h);
        assert(out@ =~= seq![37u8] + hex_of(seq![b], true));
    }
    out
}

/// The escaped form of an info-hash, each byte judged by `pattern`.
pub open spec fn escaped_hash(h: Seq<u8>, pattern: Seq<char>) -> Seq<u8>
    decreases h.len(),
{
    if h.len() == 0 {
        Seq::empty()
    } else {
        escaped_hash(h.drop_last(), pattern) + escaped_byte(h.last(), regex_matches(pattern, seq![h.last()]))
    }
}

/// Escapes an info-hash for a tracker query; `None` only when the
/// unreserved pattern fails to compile.
pub fn escape_info_hash(info_hash: &[u8]) -> (r: Option<Vec<u8>>)
    ensures
        r is Some <==> (info_hash@.len() == 0 || regex_compiles(UNRESERVED@)),
        r matches Some(out) ==> out@ == escaped_hash(info_hash@, UNRESERVED@),
{
    let mut out: Vec<u8> = Vec::new();
    let mut i: usize = 0;
    assert(info_hash@.take(0) =~= Seq::<u8>::empty());
    while i < info_hash.len()
        invariant
            i <= info_hash@.len(),
            out@ == escaped_hash(info_hash@.take(i as int), UNRESERVED@),
            i > 0 ==> regex_compiles(UNRESERVED@),
        decreases info_hash.len() - i,
    {
        let b = info_hash[i];
        let mut one: Vec<u8> = Vec::new();
        one.push(b);
        assert(one@ =~= seq![b]);
        match regex_is_match(UNRESERVED, one.as_slice()) {
            None => {
                return None;
            },
            Some(m) => {
                let mut e = escape_byte(b, m);
                out.append(&mut e);
                proof {
                    let t = info_hash@.take(i + 1);
                    assert(t.drop_last() =~= info_hash@.take(i as int));
                    assert(t.last() == b);
                }
                i = i + 1;
            },
        }
    }
    assert(info_hash@.take(i as int) =~= info_hash@);
    Some(out)
}

/// The URL that parsing `base` and appending `params` to its query gives,
/// or `None` when `base` does not parse.
pub uninterp spec fn url_with_params(base: Seq<char>, params: Seq<(Seq<char>, Seq<char>)>) -> Option<
    Seq<char>,
>;

/// Relies on `reqwest::Url::parse_with_params` (the url crate's `Url`):
/// parses `base` and appends the pairs, form-urlencoded, to its query. The
/// result depends on the arguments alone.
#[verifier::external_body]
fn parse_with_params(base: &str, params: &Vec<(String, String)>) -> (r: Option<String>)
    ensures
        match r {
            Some(u) => url_with_params(base@, params.deep_view()) == Some(u@),
            None => url_with_params(base@, params.deep_view()) is None,
        },
{
    match reqwest::Url::parse_with_params(base, params.iter()) {
        Ok(url) => Some(String::from(url)),
        Err(_) => None,
    }
}

/// `?info_hash=`
pub open spec fn query_prefix() -> Seq<u8> {
    seq![63u8, 105, 110, 102, 111, 95, 104, 97, 115, 104, 61]
}

/// The query pairs that follow the info-hash in an announce request.
pub open spec fn announce_params(left: i64) -> Seq<(Seq<char>, Seq<char>)> {
    seq![
        ("peer_id"@, PEER_ID@),
        ("port"@, "6881"@),
        ("downloaded"@, "0"@),
        ("uploaded"@, "0"@),
        ("left"@, ascii_chars(int_digits(left as int))),
        ("compact"@, "1"@),
    ]
}

/// The announce URL: the tracker URL with the escaped info-hash, then the
/// peer id, port, transfer counters, bytes left and the compact flag.
/// `None` when the unreserved pattern fails to compile or the URL does not parse.
pub fn tracker_url(announce: &[u8], info_hash: &[u8], left: i64) -> (r: Option<String>)
    ensures
        (info_hash@.len() == 0 || regex_compiles(UNRESERVED@)) ==> match url_with_params(
            lossy_utf8(announce@ + query_prefix() + escaped_hash(info_hash@, UNRESERVED@)),
            announce_params(left),
        ) {
            Some(u) => r matches Some(t) && t@ == u,
            None => r is None,
        },
        !(info_hash@.len() == 0 || regex_compiles(UNRESERVED@)) ==> r is None,
{
    let escaped = escape_info_hash(info_hash)?;
    let mut base: Vec<u8> = vstd::slice::slice_to_vec(announce);
    let mut prefix: Vec<u8> = vec![63u8, 105, 110, 102, 111, 95, 104, 97, 115, 104, 61];
    assert(prefix@ =~= query_prefix());
    base.append(&mut prefix);
    let mut esc = escaped;
    base.append(&mut esc);
    let base_text = utf8_lossy(base.as_slice());
    let mut left_digits: Vec<u8> = Vec::new();
    push_int(&mut left_digits, left);
    proof {
        let m: nat = if left < 0 { (-left) as nat } else { left as nat };
        lemma_nat_digits(m);
        assert(left_digits@ =~= int_digits(left as int));
        assert forall|i: int| 0 <= i < left_digits@.len() implies #[trigger] left_digits@[i] < 128 by {
            if left < 0 && i > 0 {
                assert(left_digits@[i] == nat_digits(m)[i - 1]);
            } else if left >= 0 {
                assert(left_digits@[i] == nat_digits(m)[i]);
            }
        }
    }
    let left_text = utf8_lossy(left_digits.as_slice());
    let mut params: Vec<(String, String)> = Vec::new();
    params.push(("peer_id".to_owned(), PEER_ID.to_owned()));
    params.push(("port".to_owned(), "6881".to_owned()));
    params.push(("downloaded".to_owned(), "0".to_owned()));
    params.push(("uploaded".to_owned(), "0".to_owned()));
    params.push(("left".to_owned(), left_text));
    params.push(("compact".to_owned(), "1".to_owned()));
    assert(params.deep_view() =~= announce_params(left));
    parse_with_params(base_text.as_str(), &params)
}

} // verus!

verus! {

/// A peer from a compact tracker reply: an IPv4 address and a port.
#[derive(Debug, Clone, Copy, PartialEq, Eq)]
pub struct Peer {
    pub ip: (u8, u8, u8, u8),
    pub port: u16,
}

/// The peer whose six bytes start at `k`: four address bytes, then the port
/// in big-endian order.
pub open spec fn peer_at(s: Seq<u8>, k: int) -> Peer {
    Peer { ip: (s[k], s[k + 1], s[k + 2], s[k + 3]), port: (s[k + 4] * 256 + s[k + 5]) as u16 }
}

/// The peers held back to back in a compact `peers` string, or `None` when
/// its length is not a multiple of six.
pub fn parse_peers(peers: &[u8]) -> (r: Option<Vec<Peer>>)
    ensures
        r is Some <==> peers@.len() % 6 == 0,
        r matches Some(ps) ==> {
            &&& ps@.len() == peers@.len() / 6
            &&& forall|i: int| 0 <= i < ps@.len() ==> #[trigger] ps@[i] == peer_at(peers@, 6 * i)
        },
{
    let total: usize = peers.len();
    if total % 6 != 0 {
        return None;
    }
    let mut ps: Vec<Peer> = Vec::new();
    let mut k: usize = 0;
    while k < total / 6
        invariant
            total == peers@.len(),
            total % 6 == 0,
            k <= total / 6,
            ps@.len() == k,
            forall|i: int| 0 <= i < k ==> #[trigger] ps@[i] == peer_at(peers@, 6 * i),
        decreases total / 6 - k,
    {
        assert(6 * k + 6 <= total) by (nonlinear_arith)
            requires
                k < total / 6,
        ;
        let s: usize = 6 * k;
        let port: u16 = (peers[s + 4] as u16) * 256 + peers[s + 5] as u16;
        ps.push(Peer { ip: (peers[s], peers[s + 1], peers[s + 2], peers[s + 3]), port });
        k = k + 1;
    }
    Some(ps)
}

/// `a.b.c.d:port`, each number in decimal.
pub open spec fn peer_text(p: Peer) -> Seq<u8> {
    nat_digits(p.ip.0 as nat) + seq![46u8] + nat_digits(p.ip.1 as nat) + seq![46u8] + nat_digits(
        p.ip.2 as nat,
    ) + seq![46u8] + nat_digits(p.ip.3 as nat) + seq![58u8] + nat_digits(p.port as nat)
}

proof fn lemma_digits_ascii(n: nat)
    ensures
        is_ascii_bytes(nat_digits(n)),
{
    lemma_nat_digits(n);
}

impl Peer {
    /// The peer as `a.b.c.d:port`.
    pub fn to_text(&self) -> (r: String)
        ensures
            r@ == ascii_chars(peer_text(*self)),
    {
        let mut out: Vec<u8> = Vec::new();
        push_digits(&mut out, self.ip.0 as u64);
        out.push(46u8);
        push_digits(&mut out, self.ip.1 as u64);
        out.push(46u8);
        push_digits(&mut out, self.ip.2 as u64);
        out.push(46u8);
        push_digits(&mut out, self.ip.3 as u64);
        out.push(58u8);
        push_digits(&mut out, self.port as u64);
        proof {
            assert(out@ =~= peer_text(*self));
            lemma_digits_ascii(self.ip.0 as nat);
            lemma_digits_ascii(self.ip.1 as nat);
            lemma_digits_ascii(self.ip.2 as nat);
            lemma_digits_ascii(self.ip.3 as nat);
            lemma_digits_ascii(self.port as nat);
            assert forall|i: int| 0 <= i < out@.len() implies #[trigger] out@[i] < 128 by {
                let t = out@;
                let l0 = nat_digits(self.ip.0 as nat).len() as int;
                let l1 = nat_digits(self.ip.1 as nat).len() as int;
                let l2 = nat_digits(self.ip.2 as nat).len() as int;
                let l3 = nat_digits(self.ip.3 as nat).len() as int;
                if i < l0 {
                    assert(t[i] == nat_digits(self.ip.0 as nat)[i]);
                } else if i == l0 {
                } else if i < l0 + 1 + l1 {
                    assert(t[i] == nat_digits(self.ip.1 as nat)[i - l0 - 1]);
                } else if i == l0 + 1 + l1 {
                } else if i < l0 + l1 + l2 + 2 {
                    assert(t[i] == nat_digits(self.ip.2 as nat)[i - l0 - l1 - 2]);
                } else if i == l0 + l1 + l2 + 2 {
                } else if i < l0 + l1 + l2 + l3 + 3 {
                    assert(t[i] == nat_digits(self.ip.3 as nat)[i - l0 - l1 - l2 - 3]);
                } else if i == l0 + l1 + l2 + l3 + 3 {
                } else {
                    assert(t[i] == nat_digits(self.port as nat)[i - l0 - l1 - l2 - l3 - 4]);
                }
            }
        }
        utf8_lossy(out.as_slice())
    }
}

/// Why a tracker reply gave no peers.
#[derive(Debug, PartialEq, Eq)]
pub enum TrackerError {
    /// The tracker refused, with the reason it gave.
    Failure(Vec<u8>),
    /// The reply has no usable `peers` byte string.
    NoPeers(LookupError),
    /// The `peers` string is not a whole number of six-byte records.
    MalformedPeers,
}

/// The peers of a decoded tracker reply; a `failure reason` takes precedence.
pub fn peers_from_response(response: &BencodeTypes) -> (r: Result<Vec<Peer>, TrackerError>)
    ensures
        match spec_get(response@, "failure reason".spec_bytes()) {
            Ok(BValue::Bytes(msg)) => r matches Err(TrackerError::Failure(m)) && m@ == msg,
            _ => match spec_get(response@, "peers".spec_bytes()) {
                Ok(BValue::Bytes(p)) => if p.len() % 6 == 0 {
                    r matches Ok(ps) && ps@.len() == p.len() / 6 && forall|i: int|
                        0 <= i < ps@.len() ==> #[trigger] ps@[i] == peer_at(p, 6 * i)
                } else {
                    r matches Err(TrackerError::MalformedPeers)
                },
                Ok(_) => r matches Err(TrackerError::NoPeers(e)) && e == LookupError::WrongVariant,
                Err(e) => r matches Err(TrackerError::NoPeers(f)) && f == e,
            },
        },
{
    if let Ok(msg) = response.get_byte_string("failure reason") {
        return Err(TrackerError::Failure(msg));
    }
    match response.get_byte_string("peers") {
        Ok(p) => match parse_peers(p.as_slice()) {
            Some(ps) => Ok(ps),
            None => Err(TrackerError::MalformedPeers),
        },
        Err(e) => Err(TrackerError::NoPeers(e)),
    }
}

} // verus!
