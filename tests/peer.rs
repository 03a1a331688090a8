use boost_torrent::bitvector::BitVector;
use boost_torrent::error::BoostError;
use boost_torrent::message::BitTorrentMessage;
use boost_torrent::peer::{build_handshake, check_handshake, PeerState};

fn handshake(hash: &[u8; 20], id: &[u8; 20]) -> Vec<u8> {
    let mut v = vec![0x13u8];
    v.extend_from_slice(b"BitTorrent protocol");
    v.extend_from_slice(&[0u8; 8]);
    v.extend_from_slice(hash);
    v.extend_from_slice(id);
    v
}

#[test]
fn handshake_establishes_a_session() {
    let hash = [7u8; 20];
    let id = *b"-XX0001-abcdefghijkl";
    let sent = build_handshake(&hash, &id).unwrap();
    assert_eq!(sent, handshake(&hash, &id));
    assert_eq!(sent.len(), 68);
    let remote = *b"-YY0002-mnopqrstuvwx";
    let received = handshake(&hash, &remote);
    assert_eq!(check_handshake(&received, &hash).unwrap(), remote);
    let s = PeerState::start_session(&received, &hash, 10, false).unwrap();
    assert_eq!(s.id, remote);
    assert!(s.flags.choked && s.flags.choking);
    assert!(!s.flags.interested_in_me && !s.flags.interested_in_them);
    assert!(!s.is_incoming());
    assert_eq!(s.bit_vector.bit_len(), 10);
}

#[test]
fn handshake_rejections() {
    let hash = [7u8; 20];
    let id = [1u8; 20];
    let good = handshake(&hash, &id);
    let mut wrong_hash = good.clone();
    wrong_hash[30] ^= 1;
    let mut wrong_proto = good.clone();
    wrong_proto[5] = b'x';
    let mut wrong_len = good.clone();
    wrong_len[0] = 18;
    let short = good[..67].to_vec();
    for h in [wrong_hash, wrong_proto, wrong_len, short] {
        assert!(matches!(check_handshake(&h, &hash), Err(BoostError::BitTorrentProtocolErr(_))));
        assert!(matches!(PeerState::start_session(&h, &hash, 4, true), Err(BoostError::BitTorrentProtocolErr(_))));
    }
}

#[test]
fn handshake_needs_twenty_byte_fields() {
    assert!(matches!(build_handshake(&[0u8; 19], &[0u8; 20]), Err(BoostError::BitTorrentProtocolErr(_))));
    assert!(matches!(build_handshake(&[0u8; 20], &[0u8; 21]), Err(BoostError::BitTorrentProtocolErr(_))));
}

#[test]
fn messages_drive_the_session_state() {
    let mut s = PeerState::new([0u8; 20], 12, true);
    assert!(s.is_incoming());
    s.on_message(&BitTorrentMessage::Unchoke).unwrap();
    assert!(!s.flags.choked);
    s.on_message(&BitTorrentMessage::Choke).unwrap();
    assert!(s.flags.choked);
    s.on_message(&BitTorrentMessage::Interested).unwrap();
    assert!(s.flags.interested_in_me);
    s.on_message(&BitTorrentMessage::NotInterested).unwrap();
    assert!(!s.flags.interested_in_me);
    s.on_message(&BitTorrentMessage::Have(5)).unwrap();
    assert!(s.bit_vector.index_isset(5));
    s.on_message(&BitTorrentMessage::Bitfield(BitVector::from_bytes(&[0x80, 0x10]))).unwrap();
    assert!(s.bit_vector.index_isset(0));
    assert!(s.bit_vector.index_isset(11));
    assert!(!s.bit_vector.index_isset(5));
    let r = s.on_message(&BitTorrentMessage::Bitfield(BitVector::from_bytes(&[0xff])));
    assert!(matches!(r, Err(BoostError::BitTorrentProtocolErr(_))));
    assert!(s.bit_vector.index_isset(0));
}
