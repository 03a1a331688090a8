use boost_torrent::peer_id::gen_peer_id;
use boost_torrent::pool::{position_of_id, refresh_action, PeerPool, PoolEvent, RefreshAction, MAX_OUTGOING};

#[test]
fn outgoing_count_never_exceeds_the_cap() {
    let mut pool = PeerPool::new();
    for _ in 0..40 {
        pool.on_event(PoolEvent::Connected);
    }
    assert_eq!(pool.outgoing_count(), MAX_OUTGOING);
    assert!(!pool.should_dial());
    assert!(!pool.on_event(PoolEvent::Connected));
    pool.on_event(PoolEvent::Died { outgoing: false });
    assert_eq!(pool.outgoing_count(), 30);
    pool.on_event(PoolEvent::Died { outgoing: true });
    assert_eq!(pool.outgoing_count(), 29);
    assert!(pool.should_dial());
    assert!(pool.on_event(PoolEvent::Connected));
    assert_eq!(pool.outgoing_count(), 30);
    for _ in 0..50 {
        pool.on_event(PoolEvent::Died { outgoing: true });
    }
    assert_eq!(pool.outgoing_count(), 0);
}

#[test]
fn refresh_decisions() {
    assert_eq!(refresh_action(0, 10, true), RefreshAction::Stop);
    assert_eq!(refresh_action(3, 10, false), RefreshAction::Sleep);
    assert_eq!(refresh_action(10, 10, false), RefreshAction::Announce);
}

#[test]
fn finding_a_session_by_id() {
    let ids = vec![[1u8; 20], [2u8; 20], [2u8; 20]];
    assert_eq!(position_of_id(&ids, &[2u8; 20]), Some(1));
    assert_eq!(position_of_id(&ids, &[3u8; 20]), None);
}

#[test]
fn peer_id_has_prefix_and_printable_tail() {
    let id = gen_peer_id();
    assert_eq!(id.len(), 20);
    assert!(id.starts_with("-BO1000-"));
    assert!(id[8..].bytes().all(|c| c.is_ascii_alphanumeric()));
}
