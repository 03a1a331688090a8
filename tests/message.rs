use boost_torrent::bitvector::BitVector;
use boost_torrent::error::BoostError;
use boost_torrent::message::BitTorrentMessage;

fn round_trip(m: BitTorrentMessage) -> BitTorrentMessage {
    let frame = m.encode();
    let len = BitTorrentMessage::frame_len(&frame) as usize;
    assert_eq!(frame.len(), 4 + len);
    BitTorrentMessage::decode(&frame[4..]).unwrap()
}

#[test]
fn have_encodes_to_nine_bytes() {
    let m = BitTorrentMessage::Have(5);
    assert_eq!(m.encode(), vec![0, 0, 0, 5, 4, 0, 0, 0, 5]);
}

#[test]
fn request_encodes_to_seventeen_bytes() {
    let m = BitTorrentMessage::Request { piece_index: 1, begin: 16384, length: 16384 };
    assert_eq!(
        m.encode(),
        vec![0, 0, 0, 13, 6, 0, 0, 0, 1, 0, 0, 0x40, 0, 0, 0, 0x40, 0]
    );
}

#[test]
fn lengths_follow_the_table() {
    assert_eq!(BitTorrentMessage::KeepAlive.encode(), vec![0, 0, 0, 0]);
    assert_eq!(BitTorrentMessage::Choke.encode(), vec![0, 0, 0, 1, 0]);
    assert_eq!(BitTorrentMessage::Unchoke.encode(), vec![0, 0, 0, 1, 1]);
    assert_eq!(BitTorrentMessage::Interested.encode(), vec![0, 0, 0, 1, 2]);
    assert_eq!(BitTorrentMessage::NotInterested.encode(), vec![0, 0, 0, 1, 3]);
    let c = BitTorrentMessage::Cancel { piece_index: 2, begin: 3, length: 4 };
    assert_eq!(c.encode(), vec![0, 0, 0, 13, 8, 0, 0, 0, 2, 0, 0, 0, 3, 0, 0, 0, 4]);
    let p = BitTorrentMessage::Piece { piece_index: 1, begin: 2, block: vec![9, 8, 7] };
    assert_eq!(p.encode(), vec![0, 0, 0, 12, 7, 0, 0, 0, 1, 0, 0, 0, 2, 9, 8, 7]);
    let mut bv = BitVector::new(16);
    bv.set_index(0);
    bv.set_index(15);
    let b = BitTorrentMessage::Bitfield(bv);
    assert_eq!(b.encode(), vec![0, 0, 0, 3, 5, 0x80, 0x01]);
}

#[test]
fn every_variant_round_trips() {
    let mut bv = BitVector::new(16);
    bv.set_index(3);
    let msgs = vec![
        BitTorrentMessage::KeepAlive,
        BitTorrentMessage::Choke,
        BitTorrentMessage::Unchoke,
        BitTorrentMessage::Interested,
        BitTorrentMessage::NotInterested,
        BitTorrentMessage::Have(0xDEADBEEF),
        BitTorrentMessage::Bitfield(bv),
        BitTorrentMessage::Request { piece_index: 7, begin: 0, length: 16384 },
        BitTorrentMessage::Piece { piece_index: 7, begin: 16384, block: vec![1, 2, 3, 4] },
        BitTorrentMessage::Cancel { piece_index: 9, begin: 32768, length: 100 },
    ];
    for m in msgs {
        let frame = m.encode();
        let d = round_trip(m);
        assert_eq!(d.encode(), frame);
    }
    assert_eq!(round_trip(BitTorrentMessage::Have(5)), BitTorrentMessage::Have(5));
    assert_eq!(
        round_trip(BitTorrentMessage::Piece { piece_index: 1, begin: 2, block: vec![] }),
        BitTorrentMessage::Piece { piece_index: 1, begin: 2, block: vec![] }
    );
}

#[test]
fn unknown_id_is_a_protocol_error() {
    match BitTorrentMessage::decode(&[9]) {
        Err(BoostError::BitTorrentProtocolErr(_)) => {}
        other => panic!("unexpected {:?}", other),
    }
    match BitTorrentMessage::decode(&[4, 0, 0]) {
        Err(BoostError::BitTorrentProtocolErr(_)) => {}
        other => panic!("unexpected {:?}", other),
    }
    match BitTorrentMessage::decode(&[0, 1]) {
        Err(BoostError::BitTorrentProtocolErr(_)) => {}
        other => panic!("unexpected {:?}", other),
    }
}

#[test]
fn decode_choke_ids() {
    assert_eq!(BitTorrentMessage::decode(&[]).unwrap(), BitTorrentMessage::KeepAlive);
    assert_eq!(BitTorrentMessage::decode(&[0]).unwrap(), BitTorrentMessage::Choke);
    assert_eq!(BitTorrentMessage::decode(&[1]).unwrap(), BitTorrentMessage::Unchoke);
    assert_eq!(BitTorrentMessage::decode(&[3]).unwrap(), BitTorrentMessage::NotInterested);
}

#[test]
fn frame_length_header() {
    assert_eq!(BitTorrentMessage::frame_len(&[0, 0, 1, 2]), 258);
    assert_eq!(BitTorrentMessage::frame_len(&[0x40, 0, 0, 0, 9]), 0x4000_0000);
}
