use boost_torrent::message::BitTorrentMessage;
use boost_torrent::piece::Piece;

fn request_of(m: Option<BitTorrentMessage>) -> (u32, u32, u32) {
    match m {
        Some(BitTorrentMessage::Request { piece_index, begin, length }) => (piece_index, begin, length),
        other => panic!("expected a request, got {:?}", other),
    }
}

#[test]
fn requests_cover_a_forty_thousand_byte_piece() {
    let mut p = Piece::new(3, 40000, [0u8; 20], 1000);
    assert_eq!(request_of(p.next_request(1000)), (3, 0, 16384));
    assert_eq!(request_of(p.next_request(1001)), (3, 16384, 16384));
    assert_eq!(request_of(p.next_request(1002)), (3, 32768, 7232));
    assert!(p.next_request(1003).is_none());
}

#[test]
fn last_block_is_full_when_size_divides() {
    let mut p = Piece::new(0, 32768, [0u8; 20], 0);
    assert_eq!(request_of(p.next_request(0)), (0, 0, 16384));
    assert_eq!(request_of(p.next_request(0)), (0, 16384, 16384));
    assert!(p.next_request(0).is_none());
}

#[test]
fn stale_requests_are_sent_again() {
    let mut p = Piece::new(1, 40000, [0u8; 20], 0);
    p.next_request(0);
    p.next_request(0);
    p.next_request(0);
    assert!(p.next_request(500).is_none());
    p.add_block(16384, &vec![1u8; 16384], 100);
    assert!(!p.is_requests_stale(600));
    assert!(p.is_requests_stale(601));
    // block 1 arrived, so only blocks 0 and 2 are asked for again
    assert_eq!(request_of(p.next_request(601)), (1, 0, 16384));
    assert_eq!(request_of(p.next_request(602)), (1, 32768, 7232));
    assert!(p.next_request(603).is_none());
}

#[test]
fn complete_and_correct_piece() {
    let hash = [130u8, 135, 176, 52, 151, 126, 11, 163, 149, 142, 197, 71, 5, 225, 107, 163, 238, 61, 48, 176];
    let mut p = Piece::new(0, 40000, hash, 0);
    assert!(!p.is_complete());
    p.add_block(0, &vec![0u8; 16384], 1);
    p.add_block(16384, &vec![0u8; 16384], 2);
    assert!(!p.is_complete());
    p.add_block(32768, &vec![0u8; 7232], 3);
    assert!(p.is_complete());
    assert!(p.is_correct());
    assert!(p.next_request(10_000).is_none());
}

#[test]
fn single_byte_change_is_not_correct() {
    let hash = [130u8, 135, 176, 52, 151, 126, 11, 163, 149, 142, 197, 71, 5, 225, 107, 163, 238, 61, 48, 176];
    let mut p = Piece::new(0, 40000, hash, 0);
    let mut block = vec![0u8; 16384];
    block[100] = 1;
    p.add_block(0, &block, 1);
    p.add_block(16384, &vec![0u8; 16384], 2);
    p.add_block(32768, &vec![0u8; 7232], 3);
    assert!(p.is_complete());
    assert!(!p.is_correct());
}

#[test]
fn digest_of_known_data() {
    let hash = [169u8, 153, 62, 54, 71, 6, 129, 106, 186, 62, 37, 113, 120, 80, 194, 108, 156, 208, 216, 157];
    let mut p = Piece::new(0, 3, hash, 0);
    p.add_block(0, &b"abc".to_vec(), 0);
    assert!(p.is_complete());
    assert!(p.is_correct());
}

#[test]
fn empty_piece_is_complete_at_once() {
    let mut p = Piece::new(0, 0, [0u8; 20], 0);
    assert!(p.is_complete());
    assert!(p.next_request(1_000_000).is_none());
}

#[test]
fn one_byte_piece_has_one_short_block() {
    let mut p = Piece::new(9, 1, [0u8; 20], 0);
    assert_eq!(request_of(p.next_request(0)), (9, 0, 1));
    assert!(p.next_request(0).is_none());
    p.add_block(0, &vec![42u8], 5);
    assert!(p.is_complete());
}
