use rustytorrent::client::peers_data::{PeerAddr, PeerInfo, PeersData};

fn addr(last: u128, port: u16) -> PeerAddr {
    PeerAddr { ip: 0x7f00_0000 + last, v6: false, port }
}

#[test]
fn tracker_peers_skip_those_connected() {
    let mut peers = PeersData::new();
    assert!(!peers.have_unconnected());
    peers.connected(1, PeerInfo { addr: addr(1, 6881), id: Some([1; 20]) });
    peers.connected(2, PeerInfo { addr: addr(2, 6881), id: None });
    peers.add_peers_from_tracker(vec![
        PeerInfo { addr: addr(9, 1), id: Some([1; 20]) },
        PeerInfo { addr: addr(2, 6881), id: None },
        PeerInfo { addr: addr(3, 6881), id: None },
        PeerInfo { addr: addr(2, 6881), id: Some([4; 20]) },
    ]);
    assert!(peers.have_unconnected());
    let first = peers.get_unconnected(1);
    assert_eq!(first.len(), 1);
    assert_eq!(first[0].addr, addr(3, 6881));
    let rest = peers.get_unconnected(10);
    assert_eq!(rest.len(), 1);
    assert_eq!(rest[0].id, Some([4; 20]));
    assert!(!peers.have_unconnected());
    assert!(peers.get_unconnected(3).is_empty());
}

#[test]
fn connected_then_disconnected_peers_are_forgotten() {
    let mut peers = PeersData::new();
    peers.connected(5, PeerInfo { addr: addr(5, 7000), id: None });
    assert!(!peers.is_connected(&[5; 20]));
    peers.add_connected_id(5, [5; 20], addr(6, 1));
    assert!(peers.is_connected(&[5; 20]));
    assert_eq!(peers.token_to_info[&5].addr, addr(5, 7000));
    assert_eq!(peers.token_to_info[&5].id, Some([5; 20]));
    peers.disconnected(5);
    assert!(!peers.is_connected(&[5; 20]));
    assert!(peers.token_to_info.is_empty());
    peers.add_peers_from_tracker(vec![PeerInfo { addr: addr(5, 7000), id: None }]);
    assert_eq!(peers.get_unconnected(1).len(), 1);
}

#[test]
fn utp_peers_are_forgotten_by_connection() {
    let mut peers = PeersData::new();
    peers.connected_utp(3, PeerInfo { addr: addr(7, 9000), id: None });
    peers.add_connected_id_utp(3, [7; 20], addr(7, 9000));
    assert!(peers.is_connected(&[7; 20]));
    peers.disconnected_utp(addr(7, 9001), 3);
    assert!(peers.is_connected(&[7; 20]));
    peers.disconnected_utp(addr(7, 9000), 3);
    assert!(!peers.is_connected(&[7; 20]));
    peers.add_peers_from_tracker(vec![PeerInfo { addr: addr(7, 9000), id: None }]);
    assert!(peers.have_unconnected());
}
