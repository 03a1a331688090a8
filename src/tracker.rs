use vstd::prelude::*;
use crate::bencode::{enc, lemma_enc_list_items, lemma_enc_same_kind, starts_with_at, BencodeValue};
use crate::decimal::{digits_value, is_digit, lemma_value_prefix, nat_digits, parse_nat, push_nat};
use crate::error::{text, BoostError, BoostResult};
use crate::meta::{dict_get, get, int_at, lemma_dict_get_congruent, str_at};
use crate::utf8::{is_ascii_bytes, string_from_utf8, utf8_text};
use crate::wire::{
    be_u16, be_u32, be_u64, push_all, push_u16, push_u32, push_u64, read_u16_at,
    read_u32_at, read_u64_at, u16_of, u32_of, u64_of,
};

verus! {

/// The event reported in an announce.
#[derive(Debug, Clone, Copy, PartialEq, Eq)]
pub enum TrackerEvent {
    /// A regular announce, with no event.
    NoEvent,
    Started,
    Stopped,
    Completed,
}

/// The event's code in a UDP announce.
pub open spec fn event_code(e: TrackerEvent) -> u32 {
    match e {
        TrackerEvent::NoEvent => 0,
        TrackerEvent::Completed => 1,
        TrackerEvent::Started => 2,
        TrackerEvent::Stopped => 3,
    }
}

/// Where a potential peer can be reached: an IPv4 address, or a host name
/// still to be resolved.
#[derive(Debug, PartialEq, Eq)]
pub enum PeerHost {
    Ip([u8; 4]),
    Name(String),
}

/// A peer learned from a tracker, not yet connected.
#[derive(Debug, PartialEq, Eq)]
pub struct PotentialPeer {
    pub host: PeerHost,
    pub port: u16,
    pub id: Option<[u8; 20]>,
}

/// What a tracker answered.
#[derive(Debug, PartialEq, Eq)]
pub struct TrackerInfo {
    pub interval: u32,
    pub seeders: u32,
    pub leechers: u32,
    pub tracker_id: Option<String>,
    pub potential_peers: Vec<PotentialPeer>,
}

/// The peer of the 6-byte record at `at`: an IPv4 address, then a port.
pub open spec fn is_compact_peer(p: PotentialPeer, data: Seq<u8>, at: int) -> bool {
    &&& p.host is Ip
    &&& p.host->Ip_0@ == data.subrange(at, at + 4)
    &&& p.port == u16_of(data.subrange(at + 4, at + 6))
    &&& p.id is None
}

/// The peers of the whole 6-byte records of `data` from `start` on; a
/// shorter tail is left out.
pub fn parse_compact_peers(data: &[u8], start: usize) -> (r: Vec<PotentialPeer>)
    requires
        start <= data@.len(),
    ensures
        r@.len() == (data@.len() - start) / 6,
        forall|i: int| 0 <= i < r@.len() ==> is_compact_peer(#[trigger] r@[i], data@, start + 6 * i),
{
    let mut peers: Vec<PotentialPeer> = Vec::new();
    let mut pos: usize = start;
    while data.len() - pos >= 6
        invariant
            start <= pos <= data@.len(),
            pos == start + 6 * peers@.len(),
            forall|i: int|
                0 <= i < peers@.len() ==> is_compact_peer(#[trigger] peers@[i], data@, start + 6 * i),
        decreases data.len() - pos,
    {
        let mut ip: [u8; 4] = [0u8; 4];
        ip[0] = data[pos];
        ip[1] = data[pos + 1];
        ip[2] = data[pos + 2];
        ip[3] = data[pos + 3];
        assert(ip@ =~= data@.subrange(pos as int, pos + 4));
        let port = read_u16_at(data, pos + 4);
        peers.push(PotentialPeer { host: PeerHost::Ip(ip), port, id: None });
        pos = pos + 6;
    }
    assert(peers@.len() == (data@.len() - start) / 6) by (nonlinear_arith)
        requires
            pos == start + 6 * peers@.len(),
            pos + 6 > data@.len(),
            pos <= data@.len(),
    ;
    peers
}

/// The UDP connect request: the protocol's magic number, action 0, and the
/// transaction id.
pub open spec fn udp_connect_bytes(transaction_id: u32) -> Seq<u8> {
    be_u64(0x41727101980) + be_u32(0) + be_u32(transaction_id)
}

/// The 16-byte UDP connect request.
pub fn udp_connect_request(transaction_id: u32) -> (r: Vec<u8>)
    ensures
        r@ == udp_connect_bytes(transaction_id),
        r@.len() == 16,
{
    let mut buf: Vec<u8> = Vec::new();
    push_u64(&mut buf, 0x41727101980);
    push_u32(&mut buf, 0);
    push_u32(&mut buf, transaction_id);
    assert(buf@ =~= udp_connect_bytes(transaction_id));
    buf
}

/// A connect response of action 0 for the same transaction.
pub open spec fn udp_connect_ok(buf: Seq<u8>, transaction_id: u32) -> bool {
    &&& buf.len() >= 16
    &&& u32_of(buf.subrange(0, 4)) == 0
    &&& u32_of(buf.subrange(4, 8)) == transaction_id
}

/// Reads a connect response and returns the connection id. Any other action
/// or transaction gives `TrackerUDPProtocolErr`.
pub fn udp_connect_response(buf: &[u8], transaction_id: u32) -> (r: BoostResult<u64>)
    ensures
        match r {
            Ok(c) => udp_connect_ok(buf@, transaction_id) && c == u64_of(buf@.subrange(8, 16)),
            Err(e) => e is TrackerUDPProtocolErr && !udp_connect_ok(buf@, transaction_id),
        },
{
    if buf.len() < 16 {
        return Err(BoostError::TrackerUDPProtocolErr);
    }
    if read_u32_at(buf, 0) != 0 {
        return Err(BoostError::TrackerUDPProtocolErr);
    }
    if read_u32_at(buf, 4) != transaction_id {
        return Err(BoostError::TrackerUDPProtocolErr);
    }
    Ok(read_u64_at(buf, 8))
}

/// The UDP announce request.
pub open spec fn udp_announce_bytes(
    connection_id: u64,
    transaction_id: u32,
    info_hash: Seq<u8>,
    peer_id: Seq<u8>,
    downloaded: u64,
    left: u64,
    uploaded: u64,
    event: TrackerEvent,
    listen_port: u16,
) -> Seq<u8> {
    be_u64(connection_id) + be_u32(1) + be_u32(transaction_id) + info_hash + peer_id + be_u64(
        downloaded,
    ) + be_u64(left) + be_u64(uploaded) + be_u32(event_code(event)) + be_u32(0) + be_u32(0)
        + be_u32(0xFFFFFFFF) + be_u16(listen_port)
}

/// The 98-byte UDP announce request: connection id, action 1, transaction
/// id, info hash, peer id, downloaded, left, uploaded, event, IP 0, key 0,
/// numwant -1, and the listening port.
pub fn udp_announce_request(
    connection_id: u64,
    transaction_id: u32,
    info_hash: &[u8],
    peer_id: &[u8],
    downloaded: u64,
    left: u64,
    uploaded: u64,
    event: &TrackerEvent,
    listen_port: u16,
) -> (r: Vec<u8>)
    requires
        info_hash@.len() == 20,
        peer_id@.len() == 20,
    ensures
        r@ == udp_announce_bytes(
            connection_id,
            transaction_id,
            info_hash@,
            peer_id@,
            downloaded,
            left,
            uploaded,
            *event,
            listen_port,
        ),
        r@.len() == 98,
{
    let mut buf: Vec<u8> = Vec::new();
    push_u64(&mut buf, connection_id);
    push_u32(&mut buf, 1);
    push_u32(&mut buf, transaction_id);
    push_all(&mut buf, info_hash);
    push_all(&mut buf, peer_id);
    push_u64(&mut buf, downloaded);
    push_u64(&mut buf, left);
    push_u64(&mut buf, uploaded);
    let code: u32 = match event {
        TrackerEvent::NoEvent => 0,
        TrackerEvent::Completed => 1,
        TrackerEvent::Started => 2,
        TrackerEvent::Stopped => 3,
    };
    push_u32(&mut buf, code);
    push_u32(&mut buf, 0);
    push_u32(&mut buf, 0);
    push_u32(&mut buf, 0xFFFFFFFF);
    push_u16(&mut buf, listen_port);
    assert(buf@ =~= udp_announce_bytes(
        connection_id,
        transaction_id,
        info_hash@,
        peer_id@,
        downloaded,
        left,
        uploaded,
        *event,
        listen_port,
    ));
    buf
}

/// An announce response of action 1 for the same transaction.
pub open spec fn udp_announce_ok(buf: Seq<u8>, transaction_id: u32) -> bool {
    &&& buf.len() >= 20
    &&& u32_of(buf.subrange(0, 4)) == 1
    &&& u32_of(buf.subrange(4, 8)) == transaction_id
}

/// Reads an announce response, the whole received datagram: interval,
/// leechers, seeders, then 6-byte peer records up to the datagram's end. Any
/// other action or transaction gives `TrackerUDPProtocolErr`.
pub fn udp_announce_response(buf: &[u8], transaction_id: u32) -> (r: BoostResult<TrackerInfo>)
    ensures
        match r {
            Ok(info) => {
                &&& udp_announce_ok(buf@, transaction_id)
                &&& info.interval == u32_of(buf@.subrange(8, 12))
                &&& info.leechers == u32_of(buf@.subrange(12, 16))
                &&& info.seeders == u32_of(buf@.subrange(16, 20))
                &&& info.tracker_id is None
                &&& info.potential_peers@.len() == (buf@.len() - 20) / 6
                &&& forall|i: int|
                    0 <= i < info.potential_peers@.len() ==> is_compact_peer(
                        #[trigger] info.potential_peers@[i],
                        buf@,
                        20 + 6 * i,
                    )
            },
            Err(e) => e is TrackerUDPProtocolErr && !udp_announce_ok(buf@, transaction_id),
        },
{
    if buf.len() < 20 {
        return Err(BoostError::TrackerUDPProtocolErr);
    }
    if read_u32_at(buf, 0) != 1 {
        return Err(BoostError::TrackerUDPProtocolErr);
    }
    if read_u32_at(buf, 4) != transaction_id {
        return Err(BoostError::TrackerUDPProtocolErr);
    }
    let interval = read_u32_at(buf, 8);
    let leechers = read_u32_at(buf, 12);
    let seeders = read_u32_at(buf, 16);
    let potential_peers = parse_compact_peers(buf, 20);
    Ok(TrackerInfo { interval, seeders, leechers, tracker_id: None, potential_peers })
}

/// A byte that stands for itself in a URL: a digit, a letter, `-`, `.`,
/// `_` or `~`.
pub open spec fn is_unreserved(c: u8) -> bool {
    (48 <= c <= 57) || (65 <= c <= 90) || (97 <= c <= 122) || c == 45 || c == 46 || c == 95 || c
        == 126
}

/// An upper-case hexadecimal digit.
pub open spec fn hex_digit(d: u8) -> u8 {
    if d < 10 {
        (48 + d) as u8
    } else {
        (55 + d) as u8
    }
}

/// A byte as it stands in a URL: itself, or `%` and two hex digits.
pub open spec fn url_byte(c: u8) -> Seq<u8> {
    if is_unreserved(c) {
        seq![c]
    } else {
        seq![37u8, hex_digit(c / 16), hex_digit(c % 16)]
    }
}

/// The URL encoding of bytes, byte by byte.
pub open spec fn url_enc(b: Seq<u8>) -> Seq<u8>
    decreases b.len(),
{
    if b.len() == 0 {
        Seq::empty()
    } else {
        url_enc(b.drop_last()) + url_byte(b.last())
    }
}

/// Appends the URL encoding of `data`.
fn push_url_encoded(out: &mut Vec<u8>, data: &[u8])
    requires
        is_ascii_bytes(old(out)@),
    ensures
        final(out)@ == old(out)@ + url_enc(data@),
        is_ascii_bytes(final(out)@),
{
    let mut k: usize = 0;
    while k < data.len()
        invariant
            k <= data@.len(),
            out@ == old(out)@ + url_enc(data@.subrange(0, k as int)),
            is_ascii_bytes(out@),
        decreases data.len() - k,
    {
        let c = data[k];
        let unreserved = (48 <= c && c <= 57) || (65 <= c && c <= 90) || (97 <= c && c <= 122) || c
            == 45 || c == 46 || c == 95 || c == 126;
        if unreserved {
            out.push(c);
        } else {
            let hi = c / 16;
            let lo = c % 16;
            out.push(37u8);
            out.push(if hi < 10 {
                48 + hi
            } else {
                55 + hi
            });
            out.push(if lo < 10 {
                48 + lo
            } else {
                55 + lo
            });
        }
        proof {
            let pre1 = data@.subrange(0, k + 1);
            assert(pre1.drop_last() =~= data@.subrange(0, k as int));
            assert(pre1.last() == c);
        }
        k = k + 1;
        assert(out@ =~= old(out)@ + url_enc(data@.subrange(0, k as int)));
    }
    assert(data@.subrange(0, k as int) =~= data@);
}

/// The URL encoding of bytes: digits, letters, `-`, `.`, `_` and `~` stand
/// for themselves, every other byte becomes `%` and two upper-case hex digits.
pub fn url_encode(data: &[u8]) -> (r: String)
    ensures
        r@ == url_enc(data@).map_values(|c: u8| c as char),
{
    let mut out: Vec<u8> = Vec::new();
    push_url_encoded(&mut out, data);
    match string_from_utf8(out.as_slice()) {
        Some(s) => s,
        None => {
            assert(false);
            String::new()
        },
    }
}

/// `GET `
pub open spec fn lit_get() -> Seq<u8> {
    seq![71u8, 69, 84, 32]
}

/// `?info_hash=`
pub open spec fn lit_info_hash() -> Seq<u8> {
    seq![63u8, 105, 110, 102, 111, 95, 104, 97, 115, 104, 61]
}

/// `&peer_id=`
pub open spec fn lit_peer_id() -> Seq<u8> {
    seq![38u8, 112, 101, 101, 114, 95, 105, 100, 61]
}

/// `&port=`
pub open spec fn lit_port() -> Seq<u8> {
    seq![38u8, 112, 111, 114, 116, 61]
}

/// `&uploaded=`
pub open spec fn lit_uploaded() -> Seq<u8> {
    seq![38u8, 117, 112, 108, 111, 97, 100, 101, 100, 61]
}

/// `&downloaded=`
pub open spec fn lit_downloaded() -> Seq<u8> {
    seq![38u8, 100, 111, 119, 110, 108, 111, 97, 100, 101, 100, 61]
}

/// `&left=`
pub open spec fn lit_left() -> Seq<u8> {
    seq![38u8, 108, 101, 102, 116, 61]
}

/// `&compact=1&no_peer_id=1`
pub open spec fn lit_compact() -> Seq<u8> {
    seq![38u8, 99, 111, 109, 112, 97, 99, 116, 61, 49, 38, 110, 111, 95, 112, 101, 101, 114, 95, 105, 100, 61, 49]
}

/// `&trackerid=`
pub open spec fn lit_tracker_id() -> Seq<u8> {
    seq![38u8, 116, 114, 97, 99, 107, 101, 114, 105, 100, 61]
}

/// ` HTTP/1.1`, the `User-Agent` and `Accept` headers, and `Host: `.
pub open spec fn lit_headers() -> Seq<u8> {
    seq![32u8, 72, 84, 84, 80, 47, 49, 46, 49, 13, 10, 85, 115, 101, 114, 45, 65, 103, 101, 110, 116, 58, 32, 66, 111, 111, 115, 116, 84, 111, 114, 114, 101, 110, 116, 47, 48, 46, 50, 13, 10, 65, 99, 99, 101, 112, 116, 58, 42, 47, 42, 13, 10, 72, 111, 115, 116, 58, 32]
}

/// The event parameter of an HTTP announce: none, or `&event=` and its name.
pub open spec fn event_param(e: TrackerEvent) -> Seq<u8> {
    match e {
        TrackerEvent::NoEvent => Seq::empty(),
        TrackerEvent::Started => seq![38u8, 101, 118, 101, 110, 116, 61, 115, 116, 97, 114, 116, 101, 100],
        TrackerEvent::Completed => seq![38u8, 101, 118, 101, 110, 116, 61, 99, 111, 109, 112, 108, 101, 116, 101, 100],
        TrackerEvent::Stopped => seq![38u8, 101, 118, 101, 110, 116, 61, 115, 116, 111, 112, 112, 101, 100],
    }
}

/// The HTTP announce request.
pub open spec fn http_request_text(
    location: Seq<u8>,
    host: Seq<u8>,
    server_port: u16,
    info_hash: Seq<u8>,
    peer_id: Seq<u8>,
    listen_port: u16,
    uploaded: u64,
    downloaded: u64,
    left: u64,
    event: TrackerEvent,
    tracker_id: Option<Seq<u8>>,
) -> Seq<u8> {
    lit_get() + location + lit_info_hash() + url_enc(info_hash) + lit_peer_id() + url_enc(peer_id)
        + lit_port() + nat_digits(listen_port as nat) + lit_uploaded() + nat_digits(
        uploaded as nat,
    ) + lit_downloaded() + nat_digits(downloaded as nat) + lit_left() + nat_digits(left as nat)
        + lit_compact() + event_param(event) + match tracker_id {
        Some(t) => lit_tracker_id() + t,
        None => Seq::empty(),
    } + lit_headers() + host + seq![58u8] + nat_digits(server_port as nat) + seq![
        13u8,
        10,
        13,
        10,
    ]
}

/// The HTTP announce request: a `GET` of the tracker's path with the
/// url-encoded info hash and peer id, the port, the byte counts, compact
/// peers, the event and the tracker id when there are any, then the headers.
pub fn http_request(
    location: &[u8],
    host: &[u8],
    server_port: u16,
    info_hash: &[u8],
    peer_id: &[u8],
    listen_port: u16,
    uploaded: u64,
    downloaded: u64,
    left: u64,
    event: &TrackerEvent,
    tracker_id: Option<&[u8]>,
) -> (r: Vec<u8>)
    ensures
        r@ == http_request_text(
            location@,
            host@,
            server_port,
            info_hash@,
            peer_id@,
            listen_port,
            uploaded,
            downloaded,
            left,
            *event,
            match tracker_id {
                Some(t) => Some(t@),
                None => None,
            },
        ),
{
    let l_get: [u8; 4] = [71u8, 69, 84, 32];
    let l_hash: [u8; 11] = [63u8, 105, 110, 102, 111, 95, 104, 97, 115, 104, 61];
    let l_id: [u8; 9] = [38u8, 112, 101, 101, 114, 95, 105, 100, 61];
    let l_port: [u8; 6] = [38u8, 112, 111, 114, 116, 61];
    let l_up: [u8; 10] = [38u8, 117, 112, 108, 111, 97, 100, 101, 100, 61];
    let l_down: [u8; 12] = [38u8, 100, 111, 119, 110, 108, 111, 97, 100, 101, 100, 61];
    let l_left: [u8; 6] = [38u8, 108, 101, 102, 116, 61];
    let l_compact: [u8; 23] = [38u8, 99, 111, 109, 112, 97, 99, 116, 61, 49, 38, 110, 111, 95, 112, 101, 101, 114, 95, 105, 100, 61, 49];
    let l_started: [u8; 14] = [38u8, 101, 118, 101, 110, 116, 61, 115, 116, 97, 114, 116, 101, 100];
    let l_completed: [u8; 16] = [38u8, 101, 118, 101, 110, 116, 61, 99, 111, 109, 112, 108, 101, 116, 101, 100];
    let l_stopped: [u8; 14] = [38u8, 101, 118, 101, 110, 116, 61, 115, 116, 111, 112, 112, 101, 100];
    let l_tid: [u8; 11] = [38u8, 116, 114, 97, 99, 107, 101, 114, 105, 100, 61];
    let l_headers: [u8; 59] = [32u8, 72, 84, 84, 80, 47, 49, 46, 49, 13, 10, 85, 115, 101, 114, 45, 65, 103, 101, 110, 116, 58, 32, 66, 111, 111, 115, 116, 84, 111, 114, 114, 101, 110, 116, 47, 48, 46, 50, 13, 10, 65, 99, 99, 101, 112, 116, 58, 42, 47, 42, 13, 10, 72, 111, 115, 116, 58, 32];
    let l_end: [u8; 4] = [13u8, 10, 13, 10];
    assert(l_get@ =~= lit_get());
    assert(l_hash@ =~= lit_info_hash());
    assert(l_id@ =~= lit_peer_id());
    assert(l_port@ =~= lit_port());
    assert(l_up@ =~= lit_uploaded());
    assert(l_down@ =~= lit_downloaded());
    assert(l_left@ =~= lit_left());
    assert(l_compact@ =~= lit_compact());
    assert(l_tid@ =~= lit_tracker_id());
    assert(l_headers@ =~= lit_headers());
    let mut out: Vec<u8> = Vec::new();
    push_all(&mut out, &l_get);
    push_all(&mut out, location);
    push_all(&mut out, &l_hash);
    let mut enc_hash: Vec<u8> = Vec::new();
    push_url_encoded(&mut enc_hash, info_hash);
    push_all(&mut out, enc_hash.as_slice());
    push_all(&mut out, &l_id);
    let mut enc_id: Vec<u8> = Vec::new();
    push_url_encoded(&mut enc_id, peer_id);
    push_all(&mut out, enc_id.as_slice());
    push_all(&mut out, &l_port);
    push_nat(&mut out, listen_port as u64);
    push_all(&mut out, &l_up);
    push_nat(&mut out, uploaded);
    push_all(&mut out, &l_down);
    push_nat(&mut out, downloaded);
    push_all(&mut out, &l_left);
    push_nat(&mut out, left);
    push_all(&mut out, &l_compact);
    let ghost before_event = out@;
    match event {
        TrackerEvent::NoEvent => {},
        TrackerEvent::Started => {
            push_all(&mut out, &l_started);
            assert(l_started@ =~= event_param(*event));
        },
        TrackerEvent::Completed => {
            push_all(&mut out, &l_completed);
            assert(l_completed@ =~= event_param(*event));
        },
        TrackerEvent::Stopped => {
            push_all(&mut out, &l_stopped);
            assert(l_stopped@ =~= event_param(*event));
        },
    }
    assert(out@ =~= before_event + event_param(*event));
    let ghost before_tid = out@;
    match tracker_id {
        Some(t) => {
            push_all(&mut out, &l_tid);
            push_all(&mut out, t);
            assert(out@ =~= before_tid + (lit_tracker_id() + t@));
        },
        None => {
            assert(out@ =~= before_tid + Seq::<u8>::empty());
        },
    }
    push_all(&mut out, &l_headers);
    push_all(&mut out, host);
    out.push(58u8);
    push_nat(&mut out, server_port as u64);
    push_all(&mut out, &l_end);
    assert(out@ =~= http_request_text(
        location@,
        host@,
        server_port,
        info_hash@,
        peer_id@,
        listen_port,
        uploaded,
        downloaded,
        left,
        *event,
        match tracker_id {
            Some(t) => Some(t@),
            None => None,
        },
    ));
    out
}

/// `failure reason`
pub open spec fn key_failure() -> Seq<u8> {
    seq![102u8, 97, 105, 108, 117, 114, 101, 32, 114, 101, 97, 115, 111, 110]
}

/// `interval`
pub open spec fn key_interval() -> Seq<u8> {
    seq![105u8, 110, 116, 101, 114, 118, 97, 108]
}

/// `complete`
pub open spec fn key_complete() -> Seq<u8> {
    seq![99u8, 111, 109, 112, 108, 101, 116, 101]
}

/// `incomplete`
pub open spec fn key_incomplete() -> Seq<u8> {
    seq![105u8, 110, 99, 111, 109, 112, 108, 101, 116, 101]
}

/// `tracker id`
pub open spec fn key_tracker_id() -> Seq<u8> {
    seq![116u8, 114, 97, 99, 107, 101, 114, 32, 105, 100]
}

/// `peers`
pub open spec fn key_peers() -> Seq<u8> {
    seq![112u8, 101, 101, 114, 115]
}

/// `ip`
pub open spec fn key_ip() -> Seq<u8> {
    seq![105u8, 112]
}

/// `port`
pub open spec fn key_port() -> Seq<u8> {
    seq![112u8, 111, 114, 116]
}

/// `peer id`
pub open spec fn key_peer_id() -> Seq<u8> {
    seq![112u8, 101, 101, 114, 32, 105, 100]
}

/// A counter field is absent, or an integer that fits in 32 bits unsigned.
pub open spec fn counter_ok(v: BencodeValue, key: Seq<u8>) -> bool {
    dict_get(v, key) is None || (int_at(v, key) is Some && 0 <= int_at(v, key)->0 <= u32::MAX)
}

/// The counter's value, 0 when absent.
pub open spec fn counter_of(v: BencodeValue, key: Seq<u8>) -> u32 {
    if int_at(v, key) is Some {
        int_at(v, key)->0 as u32
    } else {
        0
    }
}

/// A peer entry of a non-compact peer list: a dictionary with a UTF-8 `ip`,
/// an integer `port` that fits in 16 bits, and at most a 20-byte `peer id`.
pub open spec fn peer_entry_ok(e: BencodeValue) -> bool {
    &&& e is Dict
    &&& str_at(e, key_ip()) is Some
    &&& utf8_text(str_at(e, key_ip())->0) is Some
    &&& int_at(e, key_port()) is Some
    &&& 0 <= int_at(e, key_port())->0 <= u16::MAX
    &&& (dict_get(e, key_peer_id()) is None || (str_at(e, key_peer_id()) is Some && str_at(
        e,
        key_peer_id(),
    )->0.len() == 20))
}

/// The peer that an entry describes.
pub open spec fn is_entry_peer(p: PotentialPeer, e: BencodeValue) -> bool {
    &&& p.host is Name
    &&& Some(p.host->Name_0@) == utf8_text(str_at(e, key_ip())->0)
    &&& p.port == int_at(e, key_port())->0 as u16
    &&& match p.id {
        Some(id) => str_at(e, key_peer_id()) == Some(id@),
        None => dict_get(e, key_peer_id()) is None,
    }
}

/// The entries of a non-compact peer list.
pub open spec fn peer_list_of(v: BencodeValue) -> Seq<BencodeValue> {
    match dict_get(v, key_peers()) {
        Some(BencodeValue::List(l)) => l@,
        _ => Seq::empty(),
    }
}

/// A tracker's answer that holds no failure and whose fields have their kinds.
pub open spec fn http_info_ok(v: BencodeValue) -> bool {
    &&& v is Dict
    &&& dict_get(v, key_failure()) is None
    &&& counter_ok(v, key_interval())
    &&& counter_ok(v, key_complete())
    &&& counter_ok(v, key_incomplete())
    &&& (dict_get(v, key_tracker_id()) is None || (str_at(v, key_tracker_id()) is Some && utf8_text(
        str_at(v, key_tracker_id())->0,
    ) is Some))
    &&& match dict_get(v, key_peers()) {
        None => true,
        Some(BencodeValue::Str(_)) => true,
        Some(BencodeValue::List(l)) => forall|i: int|
            0 <= i < l@.len() ==> #[trigger] peer_entry_ok(l@[i]),
        _ => false,
    }
}

/// The tracker info is what the answer states.
pub open spec fn http_info_matches(info: TrackerInfo, v: BencodeValue) -> bool {
    &&& info.interval == counter_of(v, key_interval())
    &&& info.seeders == counter_of(v, key_complete())
    &&& info.leechers == counter_of(v, key_incomplete())
    &&& match info.tracker_id {
        Some(t) => utf8_text(str_at(v, key_tracker_id())->0) == Some(t@),
        None => dict_get(v, key_tracker_id()) is None,
    }
    &&& match dict_get(v, key_peers()) {
        Some(BencodeValue::Str(s)) => {
            &&& info.potential_peers@.len() == s@.len() / 6
            &&& forall|i: int|
                0 <= i < info.potential_peers@.len() ==> is_compact_peer(
                    #[trigger] info.potential_peers@[i],
                    s@,
                    6 * i,
                )
        },
        Some(BencodeValue::List(l)) => {
            &&& info.potential_peers@.len() == l@.len()
            &&& forall|i: int|
                0 <= i < l@.len() ==> is_entry_peer(#[trigger] info.potential_peers@[i], l@[i])
        },
        _ => info.potential_peers@.len() == 0,
    }
}

fn counter(v: &BencodeValue, key: &[u8]) -> (r: BoostResult<u32>)
    ensures
        match r {
            Ok(n) => counter_ok(*v, key@) && n == counter_of(*v, key@),
            Err(e) => e is BencodeValueErr && !counter_ok(*v, key@),
        },
{
    match get(v, key) {
        Some(BencodeValue::Integer(i)) => {
            if *i < 0 || *i > u32::MAX as i64 {
                Err(BoostError::BencodeValueErr(text("counter out of range")))
            } else {
                Ok(*i as u32)
            }
        },
        Some(_) => Err(BoostError::BencodeValueErr(text("counter is not an integer"))),
        None => Ok(0),
    }
}

fn peer_from_entry(e: &BencodeValue) -> (r: BoostResult<PotentialPeer>)
    ensures
        match r {
            Ok(p) => peer_entry_ok(*e) && is_entry_peer(p, *e),
            Err(err) => (err is BencodeValueErr || err is TrackerHTTPProtocolErr) && !peer_entry_ok(*e),
        },
{
    match e {
        BencodeValue::Dict(_) => {},
        _ => return Err(BoostError::BencodeValueErr(text("peer is not a dictionary"))),
    }
    let k_ip: [u8; 2] = [105u8, 112];
    let k_port: [u8; 4] = [112u8, 111, 114, 116];
    let k_id: [u8; 7] = [112u8, 101, 101, 114, 32, 105, 100];
    assert(k_ip@ =~= key_ip());
    assert(k_port@ =~= key_port());
    assert(k_id@ =~= key_peer_id());
    let host = match get(e, &k_ip) {
        Some(BencodeValue::Str(s)) => match string_from_utf8(s.as_slice()) {
            Some(h) => h,
            None => return Err(BoostError::TrackerHTTPProtocolErr),
        },
        _ => return Err(BoostError::BencodeValueErr(text("host is not a string"))),
    };
    let port = match get(e, &k_port) {
        Some(BencodeValue::Integer(i)) => {
            if *i < 0 || *i > u16::MAX as i64 {
                return Err(BoostError::BencodeValueErr(text("port out of range")));
            }
            *i as u16
        },
        _ => return Err(BoostError::BencodeValueErr(text("port is not an integer"))),
    };
    let id = match get(e, &k_id) {
        Some(BencodeValue::Str(s)) => {
            if s.len() != 20 {
                return Err(BoostError::BencodeValueErr(text("peer id is not 20 bytes")));
            }
            let mut peerid: [u8; 20] = [0u8; 20];
            let mut k: usize = 0;
            while k < 20
                invariant
                    k <= 20,
                    s@.len() == 20,
                    forall|j: int| 0 <= j < k ==> peerid@[j] == s@[j],
                decreases 20 - k,
            {
                peerid[k] = s[k];
                k = k + 1;
            }
            assert(peerid@ =~= s@);
            Some(peerid)
        },
        Some(_) => return Err(BoostError::BencodeValueErr(text("peer id is not a string"))),
        None => None,
    };
    Ok(PotentialPeer { host: PeerHost::Name(host), port, id })
}

/// Reads a tracker's decoded answer. A `failure reason` gives
/// `TrackerHTTPProtocolErr`; a field of the wrong kind gives
/// `BencodeValueErr` (or `TrackerHTTPProtocolErr` for text that is not
/// UTF-8). Absent counters read as 0.
pub fn tracker_info_from_value(v: &BencodeValue) -> (r: BoostResult<TrackerInfo>)
    ensures
        r is Ok <==> http_info_ok(*v),
        match r {
            Ok(info) => http_info_matches(info, *v),
            Err(e) => e is BencodeValueErr || e is TrackerHTTPProtocolErr,
        },
        *v is Dict && dict_get(*v, key_failure()) is Some ==> r is Err && r->Err_0 is TrackerHTTPProtocolErr,
{
    match v {
        BencodeValue::Dict(_) => {},
        _ => return Err(BoostError::BencodeValueErr(text("tracker info is not a dictionary"))),
    }
    let k_fail: [u8; 14] = [102u8, 97, 105, 108, 117, 114, 101, 32, 114, 101, 97, 115, 111, 110];
    let k_int: [u8; 8] = [105u8, 110, 116, 101, 114, 118, 97, 108];
    let k_comp: [u8; 8] = [99u8, 111, 109, 112, 108, 101, 116, 101];
    let k_inc: [u8; 10] = [105u8, 110, 99, 111, 109, 112, 108, 101, 116, 101];
    let k_tid: [u8; 10] = [116u8, 114, 97, 99, 107, 101, 114, 32, 105, 100];
    let k_peers: [u8; 5] = [112u8, 101, 101, 114, 115];
    assert(k_fail@ =~= key_failure());
    assert(k_int@ =~= key_interval());
    assert(k_comp@ =~= key_complete());
    assert(k_inc@ =~= key_incomplete());
    assert(k_tid@ =~= key_tracker_id());
    assert(k_peers@ =~= key_peers());
    if get(v, &k_fail).is_some() {
        return Err(BoostError::TrackerHTTPProtocolErr);
    }
    let interval = counter(v, &k_int)?;
    let seeders = counter(v, &k_comp)?;
    let leechers = counter(v, &k_inc)?;
    let tracker_id = match get(v, &k_tid) {
        Some(BencodeValue::Str(s)) => match string_from_utf8(s.as_slice()) {
            Some(t) => Some(t),
            None => return Err(BoostError::TrackerHTTPProtocolErr),
        },
        Some(_) => return Err(BoostError::BencodeValueErr(text("tracker id is not a string"))),
        None => None,
    };
    let potential_peers = match get(v, &k_peers) {
        Some(BencodeValue::Str(s)) => parse_compact_peers(s.as_slice(), 0),
        Some(BencodeValue::List(l)) => {
            let mut peers: Vec<PotentialPeer> = Vec::new();
            let mut k: usize = 0;
            while k < l.len()
                invariant
                    k <= l@.len(),
                    peers@.len() == k,
                    dict_get(*v, key_peers()) == Some(BencodeValue::List(*l)),
                    dict_get(*v, key_failure()) is None,
                    forall|i: int| 0 <= i < k ==> peer_entry_ok(#[trigger] l@[i]),
                    forall|i: int| 0 <= i < k ==> is_entry_peer(#[trigger] peers@[i], l@[i]),
                decreases l.len() - k,
            {
                let p = match peer_from_entry(&l[k]) {
                    Ok(p) => p,
                    Err(e) => {
                        assert(!peer_entry_ok(l@[k as int]));
                        assert(!http_info_ok(*v)) by {
                            let pl = dict_get(*v, key_peers())->0;
                            assert(pl == BencodeValue::List(*l));
                            assert(pl->List_0@[k as int] == l@[k as int]);
                        }
                        return Err(e);
                    },
                };
                peers.push(p);
                k = k + 1;
            }
            peers
        },
        Some(_) => return Err(BoostError::BencodeValueErr(text("peers is not a list or a string"))),
        None => Vec::new(),
    };
    Ok(TrackerInfo { interval, seeders, leechers, tracker_id, potential_peers })
}

/// A status code and a body, as an HTTP tracker response splits into.
pub uninterp spec fn http_response_parts(resp: Seq<u8>) -> Option<(Seq<u8>, Seq<u8>)>;

/// Relies on regex's `bytes::Regex::captures` with the pattern
/// `HTTP/.* (\d{3}) OK\r\n((?:.|\s)*)\r\n\r\n((?-u:[\x00-\xff]*))`: the
/// status code and the body of the leftmost match; nothing when the response
/// does not match.
#[verifier::external_body]
fn split_http_response(resp: &[u8]) -> (r: Option<(Vec<u8>, Vec<u8>)>)
    ensures
        match r {
            Some((code, body)) => http_response_parts(resp@) == Some((code@, body@)),
            None => http_response_parts(resp@) is None,
        },
{
    let re = regex::bytes::Regex::new(
        r"HTTP/.* (\d{3}) OK\r\n((?:.|\s)*)\r\n\r\n((?-u:[\x00-\xff]*))",
    ).unwrap();
    match re.captures(resp) {
        Some(caps) => Some((caps[1].to_vec(), caps[3].to_vec())),
        None => None,
    }
}

/// Reads a status code and a body: a code above 300 gives
/// `TrackerHTTPProtocolErr`, a body that is not bencoded gives
/// `BencodeDecodingErr`, and then the decoded answer is read.
pub fn tracker_info_from_http(code: &[u8], body: &[u8]) -> (r: BoostResult<TrackerInfo>)
    ensures
        match r {
            Ok(info) => exists|n: u64|
                code@ == nat_digits(n as nat) && n <= 300 && exists|v: BencodeValue|
                    starts_with_at(body@, 0, enc(v)) && http_info_ok(v) && http_info_matches(
                        info,
                        v,
                    ),
            Err(e) => e is TrackerHTTPProtocolErr || e is BencodeDecodingErr || e is BencodeValueErr,
        },
        forall|n: u64| code@ == nat_digits(n as nat) && n > 300 ==> r is Err && r->Err_0 is TrackerHTTPProtocolErr,
        forall|n: u64|
            code@ == nat_digits(n as nat) && n <= 300 && (forall|v: BencodeValue|
                !starts_with_at(body@, 0, enc(v))) ==> r == Err::<TrackerInfo, BoostError>(
                BoostError::BencodeDecodingErr,
            ),
        forall|n: u64, v: BencodeValue|
            #![trigger nat_digits(n as nat), enc(v)]
            code@ == nat_digits(n as nat) && n <= 300 && starts_with_at(body@, 0, enc(v))
                ==> (r is Ok <==> http_info_ok(v)) && (r is Ok ==> http_info_matches(r->Ok_0, v)),
{
    assert(code@.subrange(0, code@.len() as int) =~= code@);
    let n = match parse_nat(code, 0, code.len()) {
        Some(n) => n,
        None => return Err(BoostError::TrackerHTTPProtocolErr),
    };
    proof {
        assert forall|m: u64| code@ == nat_digits(m as nat) implies m == n by {
            crate::decimal::lemma_nat_digits(m as nat);
            crate::decimal::lemma_nat_digits(n as nat);
        }
    }
    if n > 300 {
        return Err(BoostError::TrackerHTTPProtocolErr);
    }
    let v = BencodeValue::bdecode(body)?;
    let r = tracker_info_from_value(&v);
    proof {
        assert forall|w: BencodeValue| #[trigger] starts_with_at(body@, 0, enc(w)) implies (r is Ok
            <==> http_info_ok(w)) && (r is Ok ==> http_info_matches(r->Ok_0, w)) by {
            lemma_http_info_congruent(v, w);
        }
    }
    r
}

/// The status code of a response that splits.
pub open spec fn response_code(resp: Seq<u8>) -> Seq<u8> {
    let parts = http_response_parts(resp)->0;
    parts.0
}

/// The body of a response that splits.
pub open spec fn response_body(resp: Seq<u8>) -> Seq<u8> {
    let parts = http_response_parts(resp)->0;
    parts.1
}

/// Reads a whole HTTP tracker response: status line, headers and body.
/// A response that does not split into status code and body gives
/// `TrackerHTTPProtocolErr`.
pub fn http_tracker_response(resp: &[u8]) -> (r: BoostResult<TrackerInfo>)
    ensures
        http_response_parts(resp@) is None ==> r is Err && r->Err_0 is TrackerHTTPProtocolErr,
        match r {
            Ok(info) => http_response_parts(resp@) is Some && exists|v: BencodeValue|
                starts_with_at(response_body(resp@), 0, enc(v)) && http_info_ok(v)
                    && http_info_matches(info, v),
            Err(e) => e is TrackerHTTPProtocolErr || e is BencodeDecodingErr || e is BencodeValueErr,
        },
        forall|n: u64, v: BencodeValue|
            #![trigger nat_digits(n as nat), enc(v)]
            http_response_parts(resp@) is Some && response_code(resp@) == nat_digits(n as nat) && n
                <= 300 && starts_with_at(response_body(resp@), 0, enc(v)) ==> (r is Ok <==> http_info_ok(v)) && (r is Ok
                ==> http_info_matches(r->Ok_0, v)),
{
    match split_http_response(resp) {
        Some((code, body)) => tracker_info_from_http(code.as_slice(), body.as_slice()),
        None => Err(BoostError::TrackerHTTPProtocolErr),
    }
}

proof fn lemma_peer_entry_congruent(a: BencodeValue, b: BencodeValue)
    requires
        enc(a) == enc(b),
    ensures
        peer_entry_ok(a) == peer_entry_ok(b),
        forall|p: PotentialPeer| is_entry_peer(p, a) == is_entry_peer(p, b),
{
    lemma_enc_same_kind(a, b);
    lemma_dict_get_congruent(a, b, key_ip());
    lemma_dict_get_congruent(a, b, key_port());
    lemma_dict_get_congruent(a, b, key_peer_id());
}

/// Tracker answers with the same encoding are read alike: whether they are
/// well formed, and what they state, depend on the bytes alone.
pub proof fn lemma_http_info_congruent(a: BencodeValue, b: BencodeValue)
    requires
        enc(a) == enc(b),
    ensures
        http_info_ok(a) == http_info_ok(b),
        forall|info: TrackerInfo| http_info_matches(info, a) == http_info_matches(info, b),
{
    lemma_enc_same_kind(a, b);
    lemma_dict_get_congruent(a, b, key_failure());
    lemma_dict_get_congruent(a, b, key_interval());
    lemma_dict_get_congruent(a, b, key_complete());
    lemma_dict_get_congruent(a, b, key_incomplete());
    lemma_dict_get_congruent(a, b, key_tracker_id());
    lemma_dict_get_congruent(a, b, key_peers());
    if dict_get(a, key_peers()) is Some {
        let (pa, pb) = (dict_get(a, key_peers())->0, dict_get(b, key_peers())->0);
        lemma_enc_same_kind(pa, pb);
        if pa is List {
            let (la, lb) = (pa->List_0@, pb->List_0@);
            lemma_enc_list_items(la, lb);
            assert forall|i: int| 0 <= i < la.len() implies peer_entry_ok(#[trigger] la[i])
                == peer_entry_ok(lb[i]) && forall|p: PotentialPeer|
                is_entry_peer(p, la[i]) == is_entry_peer(p, lb[i]) by {
                lemma_peer_entry_congruent(la[i], lb[i]);
            }
            assert((forall|i: int| 0 <= i < la.len() ==> #[trigger] peer_entry_ok(la[i])) == (
            forall|i: int| 0 <= i < lb.len() ==> #[trigger] peer_entry_ok(lb[i]))) by {
                if forall|i: int| 0 <= i < la.len() ==> #[trigger] peer_entry_ok(la[i]) {
                    assert forall|i: int| 0 <= i < lb.len() implies #[trigger] peer_entry_ok(lb[i]) by {
                        assert(peer_entry_ok(la[i]));
                    }
                }
                if forall|i: int| 0 <= i < lb.len() ==> #[trigger] peer_entry_ok(lb[i]) {
                    assert forall|i: int| 0 <= i < la.len() implies #[trigger] peer_entry_ok(la[i]) by {
                        assert(peer_entry_ok(lb[i]));
                    }
                }
            }
            assert forall|info: TrackerInfo| http_info_matches(info, a) == http_info_matches(info, b) by {
                let ps = info.potential_peers@;
                if ps.len() == la.len() {
                    if forall|i: int| 0 <= i < la.len() ==> is_entry_peer(#[trigger] ps[i], la[i]) {
                        assert forall|i: int| 0 <= i < lb.len() implies is_entry_peer(#[trigger] ps[i], lb[i]) by {
                            assert(is_entry_peer(ps[i], la[i]));
                        }
                    }
                    if forall|i: int| 0 <= i < lb.len() ==> is_entry_peer(#[trigger] ps[i], lb[i]) {
                        assert forall|i: int| 0 <= i < la.len() implies is_entry_peer(#[trigger] ps[i], la[i]) by {
                            assert(is_entry_peer(ps[i], lb[i]));
                        }
                    }
                }
            }
        }
    }
}

/// The transport of a tracker.
#[derive(Debug, Clone, Copy, PartialEq, Eq)]
pub enum TrackerProtocol {
    Http,
    Udp,
}

/// A tracker's announce URL, taken apart.
#[derive(Debug, PartialEq, Eq)]
pub struct TrackerUrl {
    pub protocol: TrackerProtocol,
    pub host: String,
    pub port: u16,
    pub location: String,
}

/// The groups of `(http|udp)://([a-zA-Z0-9.]+):(\d+)(.*)` in a URL: scheme,
/// host, port digits, and the rest.
pub uninterp spec fn announce_url_parts(url: Seq<char>) -> Option<(Seq<u8>, Seq<u8>, Seq<u8>, Seq<u8>)>;

/// Relies on regex's `Regex::captures` with the pattern
/// `(http|udp)://([a-zA-Z0-9.]+):(\d+)(.*)`: the four groups of the leftmost
/// match as UTF-8 bytes; nothing when the URL does not match.
#[verifier::external_body]
fn announce_captures(url: &str) -> (r: Option<(Vec<u8>, Vec<u8>, Vec<u8>, Vec<u8>)>)
    ensures
        match r {
            Some((a, b, c, d)) => announce_url_parts(url@) == Some((a@, b@, c@, d@)),
            None => announce_url_parts(url@) is None,
        },
{
    let re = regex::Regex::new(r"(http|udp)://([a-zA-Z0-9.]+):(\d+)(.*)").unwrap();
    match re.captures(url) {
        Some(c) => Some((c[1].as_bytes().to_vec(), c[2].as_bytes().to_vec(), c[3].as_bytes().to_vec(), c[4].as_bytes().to_vec())),
        None => None,
    }
}

/// The URL's parts make a tracker URL: a known scheme, UTF-8 host and rest,
/// and a port that fits 16 bits.
pub open spec fn url_parts_ok(scheme: Seq<u8>, host: Seq<u8>, port: Seq<u8>, rest: Seq<u8>) -> bool {
    &&& (scheme == seq![104u8, 116, 116, 112] || scheme == seq![117u8, 100, 112])
    &&& utf8_text(host) is Some
    &&& utf8_text(rest) is Some
    &&& is_port_digits(port)
}

/// One or more decimal digits, leading zeros allowed, whose value fits in
/// 16 bits.
pub open spec fn is_port_digits(port: Seq<u8>) -> bool {
    &&& port.len() >= 1
    &&& forall|k: int| 0 <= k < port.len() ==> is_digit(#[trigger] port[k])
    &&& digits_value(port) <= u16::MAX
}

/// Reads a port number: one or more digits, leading zeros allowed, with a
/// value that fits in 16 bits.
pub fn parse_port(s: &[u8]) -> (r: Option<u16>)
    ensures
        r is Some <==> is_port_digits(s@),
        r is Some ==> r->0 == digits_value(s@),
{
    if s.len() == 0 {
        return None;
    }
    let mut v: u32 = 0;
    let mut k: usize = 0;
    while k < s.len()
        invariant
            k <= s@.len(),
            forall|j: int| 0 <= j < k ==> is_digit(#[trigger] s@[j]),
            v == digits_value(s@.subrange(0, k as int)),
            v <= u16::MAX,
        decreases s.len() - k,
    {
        let c = s[k];
        if c < 48 || c > 57 {
            return None;
        }
        proof {
            assert(s@.subrange(0, k + 1).drop_last() =~= s@.subrange(0, k as int));
        }
        v = v * 10 + (c - 48) as u32;
        k = k + 1;
        if v > 65535 {
            proof {
                if forall|j: int| 0 <= j < s@.len() ==> #[trigger] is_digit(s@[j]) {
                    lemma_value_prefix(s@, k as int);
                }
            }
            return None;
        }
    }
    assert(s@.subrange(0, k as int) =~= s@);
    Some(v as u16)
}

/// Builds a tracker URL from its parts: scheme `http` or `udp`, host, port
/// digits, and the rest. Anything else gives `TrackerURLParseErr`.
pub fn tracker_url_from_parts(scheme: &[u8], host: &[u8], port: &[u8], rest: &[u8]) -> (r:
    BoostResult<TrackerUrl>)
    ensures
        r is Ok <==> url_parts_ok(scheme@, host@, port@, rest@),
        match r {
            Ok(u) => {
                &&& (u.protocol is Http <==> scheme@ == seq![104u8, 116, 116, 112])
                &&& Some(u.host@) == utf8_text(host@)
                &&& Some(u.location@) == utf8_text(rest@)
                &&& u.port == digits_value(port@)
            },
            Err(e) => e is TrackerURLParseErr,
        },
{
    let protocol = if scheme.len() == 4 && scheme[0] == 104 && scheme[1] == 116 && scheme[2] == 116
        && scheme[3] == 112 {
        assert(scheme@ =~= seq![104u8, 116, 116, 112]);
        TrackerProtocol::Http
    } else if scheme.len() == 3 && scheme[0] == 117 && scheme[1] == 100 && scheme[2] == 112 {
        assert(scheme@ =~= seq![117u8, 100, 112]);
        TrackerProtocol::Udp
    } else {
        return Err(BoostError::TrackerURLParseErr);
    };
    let p = match parse_port(port) {
        Some(p) => p,
        None => return Err(BoostError::TrackerURLParseErr),
    };
    let host_s = match string_from_utf8(host) {
        Some(s) => s,
        None => return Err(BoostError::TrackerURLParseErr),
    };
    let location = match string_from_utf8(rest) {
        Some(s) => s,
        None => return Err(BoostError::TrackerURLParseErr),
    };
    Ok(TrackerUrl { protocol, host: host_s, port: p, location })
}

/// Takes an announce URL apart with the pattern
/// `(http|udp)://([a-zA-Z0-9.]+):(\d+)(.*)`. A URL that does not match, or
/// whose parts do not make a tracker URL, gives `TrackerURLParseErr`.
pub fn parse_tracker_url(url: &str) -> (r: BoostResult<TrackerUrl>)
    ensures
        match announce_url_parts(url@) {
            None => r is Err && r->Err_0 is TrackerURLParseErr,
            Some(parts) => {
                &&& (r is Ok <==> url_parts_ok(parts.0, parts.1, parts.2, parts.3))
                &&& r is Ok ==> Some(r->Ok_0.host@) == utf8_text(parts.1) && r->Ok_0.port
                    == digits_value(parts.2) && Some(r->Ok_0.location@) == utf8_text(parts.3)
                &&& r is Err ==> r->Err_0 is TrackerURLParseErr
            },
        },
{
    match announce_captures(url) {
        Some((scheme, host, port, rest)) => tracker_url_from_parts(
            scheme.as_slice(),
            host.as_slice(),
            port.as_slice(),
            rest.as_slice(),
        ),
        None => Err(BoostError::TrackerURLParseErr),
    }
}

} // verus!
