//! The tracker announce exchange: deriving the info hash, generating the
//! client identifier, building the announce URL byte-exactly, and decoding
//! the tracker's reply with its compact peer list.

use vstd::prelude::*;

use crate::ascii_bytes;
use crate::bencode::{
    canon, copy_bytes, dec_digits, decode, dict_get, encoded, entries_view,
    lemma_encoded_injective, lookup, push_dec_u64, representable, SpecValue, Value,
};
use crate::str_bytes;
use crate::torrent::{encode_info, info_value, Torrent};

verus! {

broadcast use {vstd::std_specs::vec::group_vec_axioms, vstd::seq::group_seq_axioms};

/// What the SHA-1 digest of a byte sequence is; it depends on the bytes
/// alone, so it carries a name rather than a definition.
pub uninterp spec fn sha1_of(bytes: Seq<u8>) -> Seq<u8>;

/// Relies on the sha1 crate's `Sha1`: the digest is exactly 20 bytes and
/// is a function of the input bytes alone.
#[verifier::external_body]
fn sha1_digest(bytes: &Vec<u8>) -> (r: Vec<u8>)
    ensures
        r@ == sha1_of(bytes@),
        r@.len() == 20,
{
    let mut h = sha1::Sha1::new();
    h.update(bytes.as_slice());
    h.digest().bytes().to_vec()
}

/// The upper-case hexadecimal digit of `n`, for `n` below 16.
pub open spec fn hex_upper(n: u8) -> u8 {
    if n < 10 {
        (48 + n) as u8
    } else {
        (55 + n) as u8
    }
}

/// The percent-encoded form of one byte: `%` and two upper-case hex digits.
pub open spec fn pct_byte(b: u8) -> Seq<u8> {
    seq![37u8, hex_upper(b / 16), hex_upper(b % 16)]
}

/// Relies on percent_encoding::percent_encode_byte: `%XX` with upper-case
/// hexadecimal digits, whatever the byte.
#[verifier::external_body]
fn percent_encode_one(b: u8) -> (r: Vec<u8>)
    ensures
        r@ == pct_byte(b),
{
    percent_encoding::percent_encode_byte(b).as_bytes().to_vec()
}

/// Relies on rand's `thread_rng` and `Rng::gen_range`: the draw is below
/// the bound; nothing more is assumed of a random value.
#[verifier::external_body]
fn random_below(bound: u32) -> (r: u32)
    requires
        bound > 0,
    ensures
        r < bound,
{
    rand::Rng::gen_range(&mut rand::thread_rng(), 0..bound)
}

/// The characters of an ASCII byte sequence, one per byte.
pub open spec fn ascii_chars(s: Seq<u8>) -> Seq<char> {
    Seq::new(s.len(), |i: int| s[i] as char)
}

/// Relies on alloc's `String::from_utf8`: ASCII bytes decode to exactly
/// one character per byte, each with the same code.
#[verifier::external_body]
fn ascii_string(bytes: Vec<u8>) -> (r: String)
    requires
        forall|i: int| 0 <= i < bytes@.len() ==> bytes@[i] < 128,
    ensures
        r@ == ascii_chars(bytes@),
{
    String::from_utf8(bytes).unwrap()
}

/// An announce request: the raw info hash, the client identifier, the
/// progress counters, the listening port, and the compact flag. The
/// `info_hash` field is a placeholder for the percent-encoded wire form
/// and stays empty: the URL builder percent-encodes `info_hash_bytes`
/// directly into the query string.
#[derive(Debug, Clone, PartialEq, Eq)]
pub struct Announce {
    pub info_hash: Vec<u8>,
    pub info_hash_bytes: Vec<u8>,
    pub peer_id: Vec<u8>,
    pub uploaded: u32,
    pub downloaded: u32,
    pub left: u32,
    pub port: u32,
    pub compact: Vec<u8>,
}

/// Builds the announce request for a parsed torrent: the info hash is the
/// SHA-1 digest of the canonical re-encoding of `info`, and the client
/// identifier is the fixed prefix followed by twelve random decimal
/// digits, 20 bytes in all.
pub fn generate_announce(torrent: &Torrent) -> (r: Announce)
    ensures
        r.info_hash_bytes@ == sha1_of(encoded(canon(info_value(torrent.info)))),
        r.info_hash_bytes@.len() == 20,
        r.peer_id@.len() == 20,
        r.peer_id@.subrange(0, 8) == ascii_bytes("-RS0001-"@),
        forall|i: int| 8 <= i < 20 ==> 48 <= #[trigger] r.peer_id@[i] <= 57,
        r.info_hash@.len() == 0,
        r.uploaded == 0,
        r.downloaded == 0,
        r.left == 0,
        r.port == 43254,
        r.compact@ == ascii_bytes("1"@),
{
    proof {
        reveal_strlit("-RS0001-");
        reveal_strlit("1");
    }
    let enc = encode_info(&torrent.info);
    let hash = sha1_digest(&enc);
    let mut peer_id = str_bytes("-RS0001-");
    let mut i: usize = 0;
    while i < 12
        invariant
            i <= 12,
            peer_id@.len() == 8 + i,
            peer_id@.subrange(0, 8) == ascii_bytes("-RS0001-"@),
            forall|j: int| 8 <= j < 8 + i ==> 48 <= #[trigger] peer_id@[j] <= 57,
        decreases 12 - i,
    {
        let d = random_below(10);
        let ghost before = peer_id@;
        peer_id.push((48 + d) as u8);
        proof {
            assert(peer_id@.subrange(0, 8) =~= before.subrange(0, 8));
        }
        i = i + 1;
    }
    Announce {
        info_hash: Vec::new(),
        info_hash_bytes: hash,
        peer_id,
        uploaded: 0,
        downloaded: 0,
        left: 0,
        port: 43254,
        compact: str_bytes("1"),
    }
}

/// The form-encoded bytes of one byte: unreserved characters stand as
/// themselves, a space becomes `+`, anything else is percent-encoded.
pub open spec fn form_byte(b: u8) -> Seq<u8> {
    if (48 <= b <= 57) || (65 <= b <= 90) || (97 <= b <= 122) || b == 42 || b == 45 || b == 46
        || b == 95 {
        seq![b]
    } else if b == 32 {
        seq![43u8]
    } else {
        pct_byte(b)
    }
}

/// The form-encoded bytes of a byte sequence.
pub open spec fn form_encoded(s: Seq<u8>) -> Seq<u8>
    decreases s,
{
    if s.len() == 0 {
        Seq::empty()
    } else {
        form_byte(s.first()) + form_encoded(s.drop_first())
    }
}

/// The byte-wise percent-encoded form of a byte sequence: every byte
/// escaped, whether or not it is a safe character.
pub open spec fn pct_all(s: Seq<u8>) -> Seq<u8>
    decreases s,
{
    if s.len() == 0 {
        Seq::empty()
    } else {
        pct_byte(s.first()) + pct_all(s.drop_first())
    }
}

/// Appends a copy of `src`.
fn push_all(out: &mut Vec<u8>, src: &Vec<u8>)
    ensures
        final(out)@ == old(out)@ + src@,
{
    let mut i: usize = 0;
    while i < src.len()
        invariant
            i <= src@.len(),
            out@ == old(out)@ + src@.subrange(0, i as int),
        decreases src@.len() - i,
    {
        out.push(src[i]);
        assert(out@ =~= old(out)@ + src@.subrange(0, i as int + 1));
        i = i + 1;
    }
    assert(out@ =~= old(out)@ + src@);
}

/// Appends the form-encoded bytes of `src`.
fn push_form_encoded(out: &mut Vec<u8>, src: &Vec<u8>)
    ensures
        final(out)@ == old(out)@ + form_encoded(src@),
{
    let mut i: usize = 0;
    proof {
        assert(src@.skip(0) =~= src@);
    }
    while i < src.len()
        invariant
            i <= src@.len(),
            out@ + form_encoded(src@.skip(i as int)) == old(out)@ + form_encoded(src@),
        decreases src@.len() - i,
    {
        let b = src[i];
        proof {
            assert(src@.skip(i as int).first() == b);
            assert(src@.skip(i as int).drop_first() =~= src@.skip(i as int + 1));
        }
        if (48 <= b && b <= 57) || (65 <= b && b <= 90) || (97 <= b && b <= 122) || b == 42
            || b == 45 || b == 46 || b == 95 {
            out.push(b);
        } else if b == 32 {
            out.push(43);
        } else {
            let e = percent_encode_one(b);
            push_all(out, &e);
        }
        proof {
            assert(out@ + form_encoded(src@.skip(i as int + 1)) =~= old(out)@ + form_encoded(
                src@,
            ));
        }
        i = i + 1;
    }
    proof {
        assert(src@.skip(src@.len() as int) =~= Seq::<u8>::empty());
        assert(out@ =~= old(out)@ + form_encoded(src@));
    }
}

/// Appends the byte-wise percent-encoded form of `src`.
fn push_pct_all(out: &mut Vec<u8>, src: &Vec<u8>)
    ensures
        final(out)@ == old(out)@ + pct_all(src@),
{
    let mut i: usize = 0;
    proof {
        assert(src@.skip(0) =~= src@);
    }
    while i < src.len()
        invariant
            i <= src@.len(),
            out@ + pct_all(src@.skip(i as int)) == old(out)@ + pct_all(src@),
        decreases src@.len() - i,
    {
        proof {
            assert(src@.skip(i as int).first() == src@[i as int]);
            assert(src@.skip(i as int).drop_first() =~= src@.skip(i as int + 1));
        }
        let e = percent_encode_one(src[i]);
        push_all(out, &e);
        proof {
            assert(out@ + pct_all(src@.skip(i as int + 1)) =~= old(out)@ + pct_all(src@));
        }
        i = i + 1;
    }
    proof {
        assert(src@.skip(src@.len() as int) =~= Seq::<u8>::empty());
        assert(out@ =~= old(out)@ + pct_all(src@));
    }
}

/// The query string of an announce request: every field form-encoded in
/// fixed order, then the info hash byte-wise percent-encoded, appended
/// last and never run through the form encoder.
pub open spec fn query_of(a: Announce) -> Seq<u8> {
    ascii_bytes("peer_id="@) + form_encoded(a.peer_id@) + ascii_bytes("&uploaded="@) + dec_digits(
        a.uploaded as nat,
    ) + ascii_bytes("&downloaded="@) + dec_digits(a.downloaded as nat) + ascii_bytes("&left="@)
        + dec_digits(a.left as nat) + ascii_bytes("&port="@) + dec_digits(a.port as nat)
        + ascii_bytes("&compact="@) + form_encoded(a.compact@) + ascii_bytes("&info_hash="@)
        + pct_all(a.info_hash_bytes@)
}

/// Builds the announce URL: the tracker URL, `?`, and the query string,
/// byte for byte as `query_of` states it.
#[verifier::rlimit(100)]
pub fn announce_url(announce: &Announce, tracker_url: &Vec<u8>) -> (r: Vec<u8>)
    ensures
        r@ == tracker_url@ + seq![63u8] + query_of(*announce),
{
    proof {
        reveal_strlit("peer_id=");
        reveal_strlit("&uploaded=");
        reveal_strlit("&downloaded=");
        reveal_strlit("&left=");
        reveal_strlit("&port=");
        reveal_strlit("&compact=");
        reveal_strlit("&info_hash=");
    }
    let mut out = copy_bytes(tracker_url);
    out.push(63);
    push_all(&mut out, &str_bytes("peer_id="));
    push_form_encoded(&mut out, &announce.peer_id);
    push_all(&mut out, &str_bytes("&uploaded="));
    push_dec_u64(&mut out, announce.uploaded as u64);
    push_all(&mut out, &str_bytes("&downloaded="));
    push_dec_u64(&mut out, announce.downloaded as u64);
    push_all(&mut out, &str_bytes("&left="));
    push_dec_u64(&mut out, announce.left as u64);
    push_all(&mut out, &str_bytes("&port="));
    push_dec_u64(&mut out, announce.port as u64);
    push_all(&mut out, &str_bytes("&compact="));
    push_form_encoded(&mut out, &announce.compact);
    push_all(&mut out, &str_bytes("&info_hash="));
    push_pct_all(&mut out, &announce.info_hash_bytes);
    proof {
        assert(out@ =~= tracker_url@ + seq![63u8] + query_of(*announce));
    }
    out
}

/// One peer from the compact list: a dotted-decimal IPv4 address and a
/// big-endian 16-bit port.
#[derive(Debug, Clone, PartialEq, Eq)]
pub struct Peer {
    pub ip: String,
    pub port: u16,
}

/// An announce that failed after the request was sent.
#[derive(Debug, Clone, PartialEq, Eq)]
pub enum AnnounceError {
    /// The tracker answered with a failure reason of its own.
    TrackerFailure(Vec<u8>),
    /// The reply is not a decodable announce response: not bencode, not a
    /// dictionary, an ill-typed field, or a peer byte string whose length
    /// is not a multiple of six.
    ResponseParse,
}

/// The dotted-decimal bytes of an IPv4 address.
pub open spec fn dotted_bytes(a: u8, b: u8, c: u8, d: u8) -> Seq<u8> {
    dec_digits(a as nat) + seq![46u8] + dec_digits(b as nat) + seq![46u8] + dec_digits(c as nat)
        + seq![46u8] + dec_digits(d as nat)
}

/// Whether `ps` reads the compact peer bytes `b`: one peer per six bytes,
/// in the order the bytes give them.
pub open spec fn peers_ok(ps: Seq<Peer>, b: Seq<u8>) -> bool {
    &&& ps.len() == b.len() / 6
    &&& forall|i: int|
        0 <= i < ps.len() ==> (#[trigger] ps[i]).ip@ == ascii_chars(
            dotted_bytes(b[6 * i], b[6 * i + 1], b[6 * i + 2], b[6 * i + 3]),
        ) && ps[i].port == b[6 * i + 4] * 256 + b[6 * i + 5]
}

/// Every byte of a decimal digit run is printable ASCII.
proof fn lemma_dec_digits_ascii(n: nat)
    ensures
        forall|i: int| 0 <= i < dec_digits(n).len() ==> 48 <= #[trigger] dec_digits(n)[i] <= 57,
    decreases n,
{
    if n < 10 {
        assert(dec_digits(n) =~= seq![(48 + n) as u8]);
    } else {
        lemma_dec_digits_ascii(n / 10);
        let t = dec_digits(n / 10);
        assert forall|i: int| 0 <= i < dec_digits(n).len() implies 48 <= #[trigger] dec_digits(
            n,
        )[i] <= 57 by {
            if i < t.len() {
                assert(dec_digits(n)[i] == t[i]);
            } else {
                assert(dec_digits(n)[i] == (48 + n % 10) as u8);
            }
        }
    }
}

/// Expands a compact peer byte string. The length must be an exact
/// multiple of six; a remainder is an error, never silently dropped. An
/// empty byte string is an empty peer list, not an error.
pub fn parse_peers(peers: &Vec<u8>) -> (r: Result<Vec<Peer>, AnnounceError>)
    ensures
        match r {
            Ok(ps) => peers@.len() % 6 == 0 && peers_ok(ps@, peers@),
            Err(e) => peers@.len() % 6 != 0 && e == AnnounceError::ResponseParse,
        },
{
    if peers.len() % 6 != 0 {
        return Err(AnnounceError::ResponseParse);
    }
    let count = peers.len() / 6;
    let mut ps: Vec<Peer> = Vec::new();
    let mut k: usize = 0;
    while k < count
        invariant
            peers@.len() <= usize::MAX,
            count == peers@.len() / 6,
            peers@.len() % 6 == 0,
            k <= count,
            ps@.len() == k,
            forall|i: int|
                0 <= i < k ==> (#[trigger] ps@[i]).ip@ == ascii_chars(
                    dotted_bytes(
                        peers@[6 * i],
                        peers@[6 * i + 1],
                        peers@[6 * i + 2],
                        peers@[6 * i + 3],
                    ),
                ) && ps@[i].port == peers@[6 * i + 4] * 256 + peers@[6 * i + 5],
        decreases count - k,
    {
        proof {
            assert(6 * (k as int) + 6 <= peers@.len()) by (nonlinear_arith)
                requires
                    (k as int) < peers@.len() / 6,
                    peers@.len() % 6 == 0,
            ;
        }
        let base = 6 * k;
        let mut ipb: Vec<u8> = Vec::new();
        push_dec_u64(&mut ipb, peers[base] as u64);
        ipb.push(46);
        push_dec_u64(&mut ipb, peers[base + 1] as u64);
        ipb.push(46);
        push_dec_u64(&mut ipb, peers[base + 2] as u64);
        ipb.push(46);
        push_dec_u64(&mut ipb, peers[base + 3] as u64);
        proof {
            assert(ipb@ =~= dotted_bytes(
                peers@[6 * k as int],
                peers@[6 * k as int + 1],
                peers@[6 * k as int + 2],
                peers@[6 * k as int + 3],
            ));
            lemma_dec_digits_ascii(peers@[6 * k as int] as nat);
            lemma_dec_digits_ascii(peers@[6 * k as int + 1] as nat);
            lemma_dec_digits_ascii(peers@[6 * k as int + 2] as nat);
            lemma_dec_digits_ascii(peers@[6 * k as int + 3] as nat);
        }
        let ip = ascii_string(ipb);
        let port: u16 = (peers[base + 4] as u16) * 256 + (peers[base + 5] as u16);
        ps.push(Peer { ip, port });
        k = k + 1;
    }
    Ok(ps)
}

/// A decoded announce response: optional swarm statistics, the raw
/// compact peer bytes if the tracker sent any, and the expanded peer
/// list. An absent peer field stays `None`, distinguished from a present
/// but empty one.
#[derive(Debug, Clone, PartialEq, Eq)]
pub struct Response {
    pub complete: Option<u32>,
    pub incomplete: Option<u32>,
    pub interval: Option<u32>,
    pub peers_bin: Option<Vec<u8>>,
    pub peers: Option<Vec<Peer>>,
}

/// Whether an optional counter field is absent or a 32-bit integer.
pub open spec fn stat_ok(d: Seq<(Seq<u8>, SpecValue)>, key: Seq<u8>) -> bool {
    match lookup(d, key) {
        None => true,
        Some(SpecValue::Int(n)) => 0 <= n <= u32::MAX,
        _ => false,
    }
}

/// Whether a decoded value is a valid announce response without a failure
/// reason: statistics are in range and the peer bytes, if present, are a
/// whole number of six-byte records.
pub open spec fn response_valid(v: SpecValue) -> bool {
    &&& v is Dict
    &&& lookup(v->Dict_0, ascii_bytes("failure reason"@)) is None
    &&& stat_ok(v->Dict_0, ascii_bytes("complete"@))
    &&& stat_ok(v->Dict_0, ascii_bytes("incomplete"@))
    &&& stat_ok(v->Dict_0, ascii_bytes("interval"@))
    &&& (match lookup(v->Dict_0, ascii_bytes("peers"@)) {
        None => true,
        Some(SpecValue::Bytes(b)) => b.len() % 6 == 0,
        _ => false,
    })
}

/// Whether the counter field `f` reads the entry under `key`.
pub open spec fn stat_matches(d: Seq<(Seq<u8>, SpecValue)>, key: Seq<u8>, f: Option<u32>) -> bool {
    match lookup(d, key) {
        None => f is None,
        Some(n) => f matches Some(c) && c as int == n->Int_0,
    }
}

/// Whether `resp` reads exactly the fields of the response document `v`.
pub open spec fn response_matches(v: SpecValue, resp: Response) -> bool {
    &&& stat_matches(v->Dict_0, ascii_bytes("complete"@), resp.complete)
    &&& stat_matches(v->Dict_0, ascii_bytes("incomplete"@), resp.incomplete)
    &&& stat_matches(v->Dict_0, ascii_bytes("interval"@), resp.interval)
    &&& (match lookup(v->Dict_0, ascii_bytes("peers"@)) {
        None => resp.peers_bin is None && resp.peers is None,
        Some(pb) => (resp.peers_bin matches Some(b) && b@ == pb->Bytes_0) && (resp.peers
            matches Some(ps) && peers_ok(ps@, pb->Bytes_0)),
    })
}

/// Reads an announce response out of a decoded value. A failure reason,
/// if present, wins over everything else; otherwise success exactly on
/// valid responses.
pub fn response_from_value(v: &Value) -> (r: Result<Response, AnnounceError>)
    ensures
        match r {
            Ok(resp) => response_valid(v@) && response_matches(v@, resp),
            Err(AnnounceError::TrackerFailure(reason)) => v@ is Dict && lookup(
                v@->Dict_0,
                ascii_bytes("failure reason"@),
            ) == Some(SpecValue::Bytes(reason@)),
            Err(AnnounceError::ResponseParse) => !response_valid(v@) && !(v@ is Dict && (
            lookup(v@->Dict_0, ascii_bytes("failure reason"@)) matches Some(f) && f is Bytes)),
        },
{
    proof {
        reveal_strlit("failure reason");
        reveal_strlit("complete");
        reveal_strlit("incomplete");
        reveal_strlit("interval");
        reveal_strlit("peers");
    }
    let es = match v {
        Value::Dict(es) => es,
        _ => {
            return Err(AnnounceError::ResponseParse);
        },
    };
    match dict_get(es, &str_bytes("failure reason")) {
        None => {},
        Some(Value::Bytes(b)) => {
            return Err(AnnounceError::TrackerFailure(copy_bytes(b)));
        },
        Some(_) => {
            return Err(AnnounceError::ResponseParse);
        },
    }
    let complete: Option<u32> = match dict_get(es, &str_bytes("complete")) {
        None => None,
        Some(Value::Int(n)) => {
            if *n < 0 || *n > 4294967295i64 {
                return Err(AnnounceError::ResponseParse);
            }
            Some(*n as u32)
        },
        Some(_) => {
            return Err(AnnounceError::ResponseParse);
        },
    };
    let incomplete: Option<u32> = match dict_get(es, &str_bytes("incomplete")) {
        None => None,
        Some(Value::Int(n)) => {
            if *n < 0 || *n > 4294967295i64 {
                return Err(AnnounceError::ResponseParse);
            }
            Some(*n as u32)
        },
        Some(_) => {
            return Err(AnnounceError::ResponseParse);
        },
    };
    let interval: Option<u32> = match dict_get(es, &str_bytes("interval")) {
        None => None,
        Some(Value::Int(n)) => {
            if *n < 0 || *n > 4294967295i64 {
                return Err(AnnounceError::ResponseParse);
            }
            Some(*n as u32)
        },
        Some(_) => {
            return Err(AnnounceError::ResponseParse);
        },
    };
    let (peers_bin, peers): (Option<Vec<u8>>, Option<Vec<Peer>>) = match dict_get(
        es,
        &str_bytes("peers"),
    ) {
        None => (None, None),
        Some(Value::Bytes(b)) => {
            let bin = copy_bytes(b);
            match parse_peers(&bin) {
                Ok(ps) => (Some(bin), Some(ps)),
                Err(_) => {
                    return Err(AnnounceError::ResponseParse);
                },
            }
        },
        Some(_) => {
            return Err(AnnounceError::ResponseParse);
        },
    };
    Ok(Response { complete, incomplete, interval, peers_bin, peers })
}

/// Decodes the tracker's reply. A failure reason in the reply is its own
/// error, distinguished from a reply that cannot be decoded at all; a
/// parse error comes only when no representable document both encodes to
/// the reply's bytes and is either a valid response or one carrying a
/// failure reason.
pub fn decode_response(bytes: &[u8]) -> (r: Result<Response, AnnounceError>)
    ensures
        match r {
            Ok(resp) => exists|sv: SpecValue|
                encoded(sv) == bytes@ && #[trigger] response_valid(sv) && response_matches(
                    sv,
                    resp,
                ),
            Err(AnnounceError::TrackerFailure(reason)) => exists|sv: SpecValue|
                #[trigger] encoded(sv) == bytes@ && sv is Dict && lookup(
                    sv->Dict_0,
                    ascii_bytes("failure reason"@),
                ) == Some(SpecValue::Bytes(reason@)),
            Err(AnnounceError::ResponseParse) => forall|sv: SpecValue|
                representable(sv) && #[trigger] encoded(sv) == bytes@ ==> !(response_valid(sv) || (
                sv is Dict && (lookup(sv->Dict_0, ascii_bytes("failure reason"@)) matches Some(f)
                    && f is Bytes))),
        },
{
    let v = match decode(bytes) {
        Ok(v) => v,
        Err(_) => {
            return Err(AnnounceError::ResponseParse);
        },
    };
    let r = response_from_value(&v);
    proof {
        assert(encoded(v@) == bytes@);
        if r is Err && r->Err_0 is ResponseParse {
            assert forall|sv: SpecValue|
                representable(sv) && #[trigger] encoded(sv) == bytes@ implies !(response_valid(sv)
                || (sv is Dict && (lookup(sv->Dict_0, ascii_bytes("failure reason"@)) matches Some(
                f,
            ) && f is Bytes))) by {
                lemma_encoded_injective(sv, v@);
            }
        }
    }
    r
}

} // verus!
