use swarm_discovery::addr::IpAddr;
use swarm_discovery::updater::PeerBook;
use swarm_discovery::Peer;

fn b(s: &str) -> Vec<u8> {
    s.as_bytes().to_vec()
}

fn peer_with(addr: IpAddr, port: u16, seen: u64) -> Peer {
    let mut p = Peer::new(seen);
    p.addrs.push((addr, port));
    p
}

#[test]
fn record_reports_new_peers_once() {
    let mut book = PeerBook::new();
    assert!(book.record_peer(b("peer_id1"), peer_with(IpAddr::V4(1), 8000, 0)));
    assert!(!book.record_peer(b("peer_id1"), peer_with(IpAddr::V4(2), 8000, 5)));
    assert!(book.record_peer(b("peer_id2"), peer_with(IpAddr::V4(3), 9000, 5)));
    assert_eq!(book.len(), 2);
}

#[test]
fn apply_response_reports_sizes() {
    let mut book = PeerBook::new();
    let news = book.apply_response(vec![
        (b("peer_id1"), peer_with(IpAddr::V4(1), 8000, 0)),
        (b("peer_id2"), peer_with(IpAddr::V4(2), 8000, 0)),
        (b("peer_id1"), peer_with(IpAddr::V4(3), 8000, 1)),
    ]);
    assert_eq!(news, vec![1, 2]);
    assert_eq!(book.len(), 2);
}

#[test]
fn gc_expires_the_silent_peer_once() {
    // three peers, τ = 1 s, φ = 1 Hz; grace = 3 · 3 · τ / min(1, 3) = 9 s
    let tau = 1_000_000_000u64;
    let cutoff = 1u64;
    let mut book = PeerBook::new();
    book.record_peer(b("peer_id0"), peer_with(IpAddr::V4(1), 1234, 0));
    book.record_peer(b("peer_id1"), peer_with(IpAddr::V4(2), 1235, 0));
    book.record_peer(b("peer_id2"), peer_with(IpAddr::V4(3), 1236, 0));

    // peers 1 and 2 are heard again; peer 0 falls silent
    book.record_peer(b("peer_id1"), peer_with(IpAddr::V4(2), 1235, 8_000_000_000));
    book.record_peer(b("peer_id2"), peer_with(IpAddr::V4(3), 1236, 8_000_000_000));

    let tombstones = book.gc_pass(10_000_000_000, tau, cutoff);
    assert_eq!(tombstones.len(), 1);
    assert_eq!(tombstones[0].0, b("peer_id0"));
    assert!(tombstones[0].1.is_expiry());
    assert!(tombstones[0].1.addrs().is_empty());
    assert_eq!(tombstones[0].1.last_seen, 0);
    assert_eq!(book.len(), 2);

    // a second pass does not re-fire for the removed peer
    let tombstones = book.gc_pass(10_500_000_000, tau, cutoff);
    assert!(tombstones.is_empty());
    assert_eq!(book.len(), 2);
}

#[test]
fn gc_leaves_the_empty_book_alone() {
    let mut book = PeerBook::new();
    let tombstones = book.gc_pass(5_000_000_000, 1_000_000_000, 1);
    assert!(tombstones.is_empty());
    assert_eq!(book.len(), 0);
}

#[test]
fn tombstone_has_no_attributes() {
    let mut book = PeerBook::new();
    let mut p = peer_with(IpAddr::V4(1), 80, 0);
    p.txt.insert(b("k"), Some(b("v")));
    book.record_peer(b("peer_id0"), p);
    let tombstones = book.gc_pass(u64::MAX, 1, 1);
    assert_eq!(tombstones.len(), 1);
    assert_eq!(tombstones[0].1.txt_attribute(&b("k")), None);
    assert!(tombstones[0].1.txt_attributes().is_empty());
}

#[test]
fn peer_age_and_expiry() {
    let p = Peer::new(1_000);
    assert_eq!(p.age(5_000), 4_000);
    assert_eq!(p.age(500), 0);
    assert!(p.is_expiry());
    let q = peer_with(IpAddr::V6(7), 80, 0);
    assert!(!q.is_expiry());
    assert_eq!(q.addrs(), &vec![(IpAddr::V6(7), 80)]);
}
