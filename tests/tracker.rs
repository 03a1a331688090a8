use boost_torrent::error::BoostError;
use boost_torrent::tracker::{
    http_request, http_tracker_response, parse_compact_peers, parse_tracker_url,
    tracker_info_from_http, udp_announce_request, udp_announce_response, udp_connect_request,
    udp_connect_response, url_encode, PeerHost, TrackerEvent, TrackerProtocol,
};

#[test]
fn url_encoding() {
    assert_eq!(url_encode(b"aZ09-._~"), "aZ09-._~");
    assert_eq!(url_encode(&[0x00, 0xff, b' ', b'/']), "%00%FF%20%2F");
    assert_eq!(url_encode(&[]), "");
}

#[test]
fn announce_urls() {
    let u = parse_tracker_url("udp://tracker.opentrackr.org:1337/announce").unwrap();
    assert_eq!(u.protocol, TrackerProtocol::Udp);
    assert_eq!(u.host, "tracker.opentrackr.org");
    assert_eq!(u.port, 1337);
    assert_eq!(u.location, "/announce");
    let h = parse_tracker_url("http://10.0.0.1:80").unwrap();
    assert_eq!(h.protocol, TrackerProtocol::Http);
    assert_eq!(h.location, "");
    assert_eq!(parse_tracker_url("ftp://x:1/").unwrap_err(), BoostError::TrackerURLParseErr);
    assert_eq!(parse_tracker_url("http://x:99999/").unwrap_err(), BoostError::TrackerURLParseErr);
    assert_eq!(parse_tracker_url("http://x/").unwrap_err(), BoostError::TrackerURLParseErr);
}

#[test]
fn udp_connect_packets() {
    let req = udp_connect_request(0x01020304);
    assert_eq!(
        req,
        vec![0, 0, 0x04, 0x17, 0x27, 0x10, 0x19, 0x80, 0, 0, 0, 0, 1, 2, 3, 4]
    );
    let resp = [0u8, 0, 0, 0, 1, 2, 3, 4, 9, 8, 7, 6, 5, 4, 3, 2];
    assert_eq!(udp_connect_response(&resp, 0x01020304).unwrap(), 0x0908070605040302);
    assert_eq!(udp_connect_response(&resp, 5).unwrap_err(), BoostError::TrackerUDPProtocolErr);
    let mut wrong_action = resp;
    wrong_action[3] = 1;
    assert_eq!(udp_connect_response(&wrong_action, 0x01020304).unwrap_err(), BoostError::TrackerUDPProtocolErr);
    assert_eq!(udp_connect_response(&resp[..15], 0x01020304).unwrap_err(), BoostError::TrackerUDPProtocolErr);
}

#[test]
fn udp_announce_packet() {
    let req = udp_announce_request(7, 9, &[0xAA; 20], &[0xBB; 20], 1, 2, 3, &TrackerEvent::Started, 6881);
    assert_eq!(req.len(), 98);
    assert_eq!(&req[0..8], &[0, 0, 0, 0, 0, 0, 0, 7]);
    assert_eq!(&req[8..12], &[0, 0, 0, 1]);
    assert_eq!(&req[12..16], &[0, 0, 0, 9]);
    assert_eq!(&req[16..36], &[0xAA; 20]);
    assert_eq!(&req[36..56], &[0xBB; 20]);
    assert_eq!(&req[56..64], &[0, 0, 0, 0, 0, 0, 0, 1]);
    assert_eq!(&req[64..72], &[0, 0, 0, 0, 0, 0, 0, 2]);
    assert_eq!(&req[72..80], &[0, 0, 0, 0, 0, 0, 0, 3]);
    assert_eq!(&req[80..84], &[0, 0, 0, 2]);
    assert_eq!(&req[84..92], &[0; 8]);
    assert_eq!(&req[92..96], &[0xff; 4]);
    assert_eq!(&req[96..98], &[0x1A, 0xE1]);
    let none = udp_announce_request(7, 9, &[0; 20], &[0; 20], 0, 0, 0, &TrackerEvent::NoEvent, 1);
    assert_eq!(&none[80..84], &[0, 0, 0, 0]);
}

#[test]
fn udp_announce_reply() {
    let mut resp = vec![0u8, 0, 0, 1, 0, 0, 0, 9, 0, 0, 0x07, 0x08, 0, 0, 0, 3, 0, 0, 0, 4];
    resp.extend_from_slice(&[10, 0, 0, 1, 0x1A, 0xE1]);
    resp.extend_from_slice(&[192, 168, 1, 2, 0, 80]);
    resp.extend_from_slice(&[1, 2, 3]);
    let info = udp_announce_response(&resp, 9).unwrap();
    assert_eq!(info.interval, 1800);
    assert_eq!(info.leechers, 3);
    assert_eq!(info.seeders, 4);
    assert_eq!(info.tracker_id, None);
    assert_eq!(info.potential_peers.len(), 2);
    assert_eq!(info.potential_peers[0].host, PeerHost::Ip([10, 0, 0, 1]));
    assert_eq!(info.potential_peers[0].port, 6881);
    assert_eq!(info.potential_peers[1].host, PeerHost::Ip([192, 168, 1, 2]));
    assert_eq!(info.potential_peers[1].port, 80);
    assert_eq!(udp_announce_response(&resp, 8).unwrap_err(), BoostError::TrackerUDPProtocolErr);
    assert_eq!(udp_announce_response(&resp[..19], 9).unwrap_err(), BoostError::TrackerUDPProtocolErr);
}

#[test]
fn compact_peer_records() {
    let peers = parse_compact_peers(&[1, 2, 3, 4, 0, 5, 9], 0);
    assert_eq!(peers.len(), 1);
    assert_eq!(peers[0].host, PeerHost::Ip([1, 2, 3, 4]));
    assert_eq!(peers[0].port, 5);
    assert_eq!(peers[0].id, None);
}

#[test]
fn http_request_text() {
    let req = http_request(
        b"/announce",
        b"tracker.example.com",
        6969,
        &[0x12, b'a'],
        b"-BO1000-abc",
        6881,
        1,
        2,
        3,
        &TrackerEvent::Started,
        Some(b"xyz".as_slice()),
    );
    let text = String::from_utf8(req).unwrap();
    assert_eq!(
        text,
        "GET /announce?info_hash=%12a&peer_id=-BO1000-abc&port=6881&uploaded=1&downloaded=2&left=3&compact=1&no_peer_id=1&event=started&trackerid=xyz HTTP/1.1\r\nUser-Agent: BoostTorrent/0.2\r\nAccept:*/*\r\nHost: tracker.example.com:6969\r\n\r\n"
    );
    let plain = http_request(b"/a", b"h", 80, &[], &[], 1, 0, 0, 0, &TrackerEvent::NoEvent, None);
    assert_eq!(
        String::from_utf8(plain).unwrap(),
        "GET /a?info_hash=&peer_id=&port=1&uploaded=0&downloaded=0&left=0&compact=1&no_peer_id=1 HTTP/1.1\r\nUser-Agent: BoostTorrent/0.2\r\nAccept:*/*\r\nHost: h:80\r\n\r\n"
    );
}

#[test]
fn http_reply_compact() {
    let mut body = b"d8:completei5e10:incompletei2e8:intervali900e5:peers12:".to_vec();
    body.extend_from_slice(&[1, 1, 1, 1, 0, 1, 2, 2, 2, 2, 0, 2]);
    body.extend_from_slice(b"10:tracker id3:abce");
    let info = tracker_info_from_http(b"200", &body).unwrap();
    assert_eq!(info.interval, 900);
    assert_eq!(info.seeders, 5);
    assert_eq!(info.leechers, 2);
    assert_eq!(info.tracker_id, Some(String::from("abc")));
    assert_eq!(info.potential_peers.len(), 2);
    assert_eq!(info.potential_peers[1].host, PeerHost::Ip([2, 2, 2, 2]));
    assert_eq!(info.potential_peers[1].port, 2);
    let mut resp = b"HTTP/1.1 200 OK\r\nContent-Type: text/plain\r\n\r\n".to_vec();
    resp.extend_from_slice(&body);
    let whole = http_tracker_response(&resp).unwrap();
    assert_eq!(whole.interval, 900);
    assert_eq!(whole.potential_peers.len(), 2);
}

#[test]
fn http_reply_peer_list() {
    let body = b"d8:intervali60e5:peersld2:ip9:127.0.0.17:peer id20:ABCDEFGHIJKLMNOPQRST4:porti6881eed2:ip4:host4:porti1eeee";
    let info = tracker_info_from_http(b"200", body).unwrap();
    assert_eq!(info.interval, 60);
    assert_eq!(info.seeders, 0);
    assert_eq!(info.potential_peers.len(), 2);
    assert_eq!(info.potential_peers[0].host, PeerHost::Name(String::from("127.0.0.1")));
    assert_eq!(info.potential_peers[0].port, 6881);
    assert_eq!(info.potential_peers[0].id, Some(*b"ABCDEFGHIJKLMNOPQRST"));
    assert_eq!(info.potential_peers[1].host, PeerHost::Name(String::from("host")));
    assert_eq!(info.potential_peers[1].id, None);
}

#[test]
fn http_reply_errors() {
    assert_eq!(tracker_info_from_http(b"404", b"de").unwrap_err(), BoostError::TrackerHTTPProtocolErr);
    assert_eq!(
        tracker_info_from_http(b"200", b"d14:failure reason3:bade").unwrap_err(),
        BoostError::TrackerHTTPProtocolErr
    );
    assert_eq!(tracker_info_from_http(b"200", b"d8:interval").unwrap_err(), BoostError::BencodeDecodingErr);
    assert!(matches!(
        tracker_info_from_http(b"200", b"d8:interval3:abce"),
        Err(BoostError::BencodeValueErr(_))
    ));
    assert!(matches!(tracker_info_from_http(b"200", b"i1e"), Err(BoostError::BencodeValueErr(_))));
    assert_eq!(http_tracker_response(b"garbage").unwrap_err(), BoostError::TrackerHTTPProtocolErr);
}

#[test]
fn port_digits_may_have_leading_zeros() {
    let u = parse_tracker_url("udp://a.b:0080/x").unwrap();
    assert_eq!(u.port, 80);
    assert_eq!(u.location, "/x");
    assert_eq!(parse_tracker_url("udp://a.b:65536/x").unwrap_err(), BoostError::TrackerURLParseErr);
    assert_eq!(parse_tracker_url("udp://a.b:065535/x").unwrap().port, 65535);
}

#[test]
fn counters_and_ports_out_of_range() {
    assert!(matches!(
        tracker_info_from_http(b"200", b"d8:intervali-1ee"),
        Err(BoostError::BencodeValueErr(_))
    ));
    assert!(matches!(
        tracker_info_from_http(b"200", b"d8:completei4294967296ee"),
        Err(BoostError::BencodeValueErr(_))
    ));
    assert_eq!(tracker_info_from_http(b"200", b"d10:incompletei4294967295ee").unwrap().leechers, u32::MAX);
    assert!(matches!(
        tracker_info_from_http(b"200", b"d5:peersld2:ip1:x4:porti65536eeee"),
        Err(BoostError::BencodeValueErr(_))
    ));
    assert!(matches!(
        tracker_info_from_http(b"200", b"d5:peersld2:ip1:x4:porti-1eeee"),
        Err(BoostError::BencodeValueErr(_))
    ));
}

#[test]
fn failure_reason_is_a_protocol_error_whatever_else() {
    assert_eq!(
        tracker_info_from_http(b"200", b"d14:failure reason3:bad8:interval3:abce").unwrap_err(),
        BoostError::TrackerHTTPProtocolErr
    );
    let mut resp = b"HTTP/1.0 200 OK\r\nX: y\r\n\r\n".to_vec();
    resp.extend_from_slice(b"d14:failure reason1:xe");
    assert_eq!(http_tracker_response(&resp).unwrap_err(), BoostError::TrackerHTTPProtocolErr);
}
