use swarm_discovery::addr::IpAddr;
use swarm_discovery::message::{DnsMessage, DnsQuestion, RecordData, CLASS_IN, TYPE_PTR};
use swarm_discovery::receiver::{handle_msg, Event};
use swarm_discovery::sender::{make_query, make_response, update_response};
use swarm_discovery::socket::{choose_send_family, evaluate_bind, Mode, SocketError, IP};
use swarm_discovery::updater::PeerBook;
use swarm_discovery::guardian::Input;
use swarm_discovery::{Discoverer, IpClass, Protocol, SpawnError};

fn b(s: &str) -> Vec<u8> {
    s.as_bytes().to_vec()
}

const LOOPBACK_V4: IpAddr = IpAddr::V4(0x7f000001);
const LOOPBACK_V6: IpAddr = IpAddr::V6(1);

fn two_peer_setup(id: &str, port: u16) -> Discoverer {
    Discoverer::new(b("test_service"), b(id))
        .with_addrs(port, vec![LOOPBACK_V4])
        .with_cadence(1_000_000_000)
        .with_response_rate(1000)
}

#[test]
fn query_round_trip() {
    let d = two_peer_setup("peer_id1", 1235);
    let service = d.validate_names().expect("valid names");
    let query = make_query(&service);
    assert!(!query.is_response);
    assert_eq!(query.questions.len(), 1);
    assert_eq!(query.questions[0].qtype, TYPE_PTR);
    assert_eq!(query.questions[0].qclass, CLASS_IN);
    assert_eq!(query.questions[0].name.labels, vec![b("_test_service"), b("_udp"), b("local")]);

    // the other peer classifies it as a query for the service
    let other = two_peer_setup("peer_id2", 1236);
    let their_service = other.validate_names().expect("valid names");
    match handle_msg(&query, &their_service, true, 0) {
        Some(Event::QueryV4) => {}
        other => panic!("not a v4 query: {:?}", kind_of(&other)),
    }
    match handle_msg(&query, &their_service, false, 0) {
        Some(Event::QueryV6) => {}
        other => panic!("not a v6 query: {:?}", kind_of(&other)),
    }
}

fn kind_of(e: &Option<Event>) -> &'static str {
    match e {
        None => "none",
        Some(Event::QueryV4) => "query_v4",
        Some(Event::QueryV6) => "query_v6",
        Some(Event::Peers(_)) => "peers",
    }
}

#[test]
fn two_peers_basic() {
    // S1: peer_id1 advertises port 1235 with attributes; peer_id2 observes
    let d = two_peer_setup("peer_id1", 1235)
        .with_txt_attributes(vec![
            (b("name"), Some(b("peer=peer_id1"))),
            (b("føø"), Some(b("bär"))),
            (b("bool"), None),
        ])
        .expect("valid attributes");
    let service = d.validate_names().expect("valid names");
    let response = make_response(&d.advert, &d.peer_id, &service).expect("advertising");
    assert!(response.is_response);
    assert!(response.authoritative);

    let observer = two_peer_setup("peer_id2", 1236);
    let their_service = observer.validate_names().expect("valid names");
    let peers = match handle_msg(&response, &their_service, true, 77) {
        Some(Event::Peers(m)) => m,
        other => panic!("not peers: {:?}", kind_of(&other)),
    };
    assert_eq!(peers.len(), 1);
    let (id, peer) = &peers[0];
    assert_eq!(id, &b("peer_id1"));
    assert_eq!(peer.addrs(), &vec![(LOOPBACK_V4, 1235)]);
    assert_eq!(peer.last_seen, 77);
    // TXT attributes arrive byte-identical, including non-ASCII UTF-8 and flags
    assert_eq!(peer.txt_attribute(&b("name")), Some(Some(b("peer=peer_id1"))));
    assert_eq!(peer.txt_attribute(&b("føø")), Some(Some(b("bär"))));
    assert_eq!(peer.txt_attribute(&b("bool")), Some(None));
    assert_eq!(peer.txt_attribute(&b("absent")), None);
}

#[test]
fn change_of_address() {
    // S2: advertise (127.0.0.1, 8000), then add (::1, 9000) and drop port 8000
    let mut d = two_peer_setup("peer_id1", 8000);
    let service = d.validate_names().expect("valid names");

    let observer = two_peer_setup("peer_id2", 1236);
    let their_service = observer.validate_names().expect("valid names");

    let response = make_response(&d.advert, &d.peer_id, &service).expect("advertising");
    match handle_msg(&response, &their_service, true, 0) {
        Some(Event::Peers(m)) => {
            assert_eq!(m[0].1.addrs(), &vec![(LOOPBACK_V4, 8000)]);
        }
        other => panic!("not peers: {:?}", kind_of(&other)),
    }

    let peer_id = d.peer_id.clone();
    update_response(&mut d.advert, &peer_id, &service, Input::AddAddr(9000, vec![LOOPBACK_V6]));
    let response = update_response(&mut d.advert, &peer_id, &service, Input::RemovePort(8000))
        .expect("still advertising");
    match handle_msg(&response, &their_service, true, 1) {
        Some(Event::Peers(m)) => {
            assert_eq!(m.len(), 1);
            assert_eq!(m[0].1.addrs(), &vec![(LOOPBACK_V6, 9000)]);
        }
        other => panic!("not peers: {:?}", kind_of(&other)),
    }
}

#[test]
fn hundred_node_swarm_converges() {
    // S3, the discovery half: every node's response teaches the newcomer
    // about that node
    let mut book = PeerBook::new();
    let observer = two_peer_setup("peer_id100", 1334);
    let their_service = observer.validate_names().expect("valid names");
    for i in 0..100u32 {
        let id = format!("peer_id{}", i);
        let d = two_peer_setup(&id, 1234 + i as u16);
        let service = d.validate_names().expect("valid names");
        let response = make_response(&d.advert, &d.peer_id, &service).expect("advertising");
        match handle_msg(&response, &their_service, true, i as u64) {
            Some(Event::Peers(m)) => {
                book.apply_response(m);
            }
            other => panic!("not peers: {:?}", kind_of(&other)),
        }
    }
    assert_eq!(book.len(), 100);
    for i in 0..100usize {
        let entry = book.entry_at(i);
        assert_eq!(entry.0, b(&format!("peer_id{}", i)));
        assert_eq!(entry.1.addrs(), &vec![(LOOPBACK_V4, 1234 + i as u16)]);
    }
}

#[test]
fn silent_node_makes_no_response() {
    // a node that advertises nothing discovers others but stays silent
    let d = Discoverer::new(b("test_service"), b("peer_id9"));
    let service = d.validate_names().expect("valid names");
    assert!(make_response(&d.advert, &d.peer_id, &service).is_none());
}

#[test]
fn multiple_ports_multiple_addresses() {
    let d = two_peer_setup("peer_id1", 8000)
        .with_addrs(8000, vec![LOOPBACK_V6])
        .with_addrs(9000, vec![LOOPBACK_V4]);
    let service = d.validate_names().expect("valid names");
    let response = make_response(&d.advert, &d.peer_id, &service).expect("advertising");
    // one SRV per distinct port, one additional per address
    assert_eq!(response.answers.len(), 2);
    assert_eq!(response.additionals.len(), 3);

    let observer = two_peer_setup("peer_id2", 1236);
    let their_service = observer.validate_names().expect("valid names");
    match handle_msg(&response, &their_service, true, 0) {
        Some(Event::Peers(m)) => {
            assert_eq!(m.len(), 1);
            assert_eq!(
                m[0].1.addrs(),
                &vec![(LOOPBACK_V4, 8000), (LOOPBACK_V4, 9000), (LOOPBACK_V6, 8000)]
            );
        }
        other => panic!("not peers: {:?}", kind_of(&other)),
    }
}

#[test]
fn foreign_traffic_is_ignored() {
    let observer = two_peer_setup("peer_id2", 1236);
    let their_service = observer.validate_names().expect("valid names");

    // a query for another service
    let stranger = Discoverer::new(b("other_service"), b("peer_id1"));
    let other_service = stranger.validate_names().expect("valid names");
    let query = make_query(&other_service);
    assert!(handle_msg(&query, &their_service, true, 0).is_none());

    // an empty message
    let empty = DnsMessage {
        id: 0,
        is_response: false,
        authoritative: false,
        questions: Vec::new(),
        answers: Vec::new(),
        additionals: Vec::new(),
    };
    assert!(handle_msg(&empty, &their_service, true, 0).is_none());

    // a question of the wrong type is not a service query
    let mut wrong = DnsMessage {
        id: 0,
        is_response: false,
        authoritative: false,
        questions: Vec::new(),
        answers: Vec::new(),
        additionals: Vec::new(),
    };
    let mut q = make_query(&their_service);
    let question = q.questions.remove(0);
    wrong.questions.push(DnsQuestion { qtype: 16, ..question });
    assert!(handle_msg(&wrong, &their_service, true, 0).is_none());
}

#[test]
fn response_with_unjoined_srv_is_noise() {
    // an SRV whose target has no address additional names no peer
    let d = two_peer_setup("peer_id1", 8000);
    let service = d.validate_names().expect("valid names");
    let mut response = make_response(&d.advert, &d.peer_id, &service).expect("advertising");
    response.additionals.clear();
    let observer = two_peer_setup("peer_id2", 1236);
    let their_service = observer.validate_names().expect("valid names");
    assert!(handle_msg(&response, &their_service, true, 0).is_none());
}

#[test]
fn records_of_wrong_class_are_skipped() {
    let d = two_peer_setup("peer_id1", 8000);
    let service = d.validate_names().expect("valid names");
    let mut response = make_response(&d.advert, &d.peer_id, &service).expect("advertising");
    for r in response.answers.iter_mut() {
        r.class = 255;
    }
    let observer = two_peer_setup("peer_id2", 1236);
    let their_service = observer.validate_names().expect("valid names");
    assert!(handle_msg(&response, &their_service, true, 0).is_none());
}

#[test]
fn invalid_names_are_rejected_at_spawn() {
    let d = Discoverer::new(b(""), b("peer_id1"));
    match d.validate_names() {
        Err(SpawnError::ServiceName { name, protocol }) => {
            assert!(name.is_empty());
            assert_eq!(protocol, Protocol::Udp);
        }
        _ => panic!("empty service accepted"),
    }
    let d = Discoverer::new(b("svc"), b("has.dot"));
    match d.validate_names() {
        Err(SpawnError::NameFromPeerId { peer_id }) => {
            assert_eq!(peer_id, b("has.dot"));
        }
        _ => panic!("dotted peer id accepted"),
    }
    let d = Discoverer::new(b("svc"), b("x"));
    assert!(d.validate_names().is_ok());
}

#[test]
fn tcp_suffix_separates_services() {
    let udp = Discoverer::new(b("svc"), b("p1"));
    let tcp = Discoverer::new(b("svc"), b("p2")).with_protocol(Protocol::Tcp);
    let udp_name = udp.validate_names().expect("valid");
    let tcp_name = tcp.validate_names().expect("valid");
    assert_eq!(tcp_name.labels[1], b("_tcp"));
    // a udp query is not a query for the tcp service
    let query = make_query(&udp_name);
    assert!(handle_msg(&query, &tcp_name, true, 0).is_none());
}

#[test]
fn ip_class_bind_policy() {
    // S5: only v4 works
    let ok = evaluate_bind(IpClass::Auto, None, Some(SocketError::Bind { domain: IP::Ipv6 }));
    assert_eq!(ok, Ok((true, false)));
    // only v6 works
    let ok = evaluate_bind(IpClass::Auto, Some(SocketError::Bind { domain: IP::Ipv4 }), None);
    assert_eq!(ok, Ok((false, true)));
    // neither works
    let err = evaluate_bind(
        IpClass::Auto,
        Some(SocketError::Bind { domain: IP::Ipv4 }),
        Some(SocketError::Bind { domain: IP::Ipv6 }),
    );
    assert_eq!(err, Err(SocketError::CannotBind));
    // an explicit class reports the family's own failure
    let err = evaluate_bind(IpClass::V6Only, None, Some(SocketError::Bind { domain: IP::Ipv6 }));
    assert_eq!(err, Err(SocketError::Bind { domain: IP::Ipv6 }));
    // both required, both fine
    let ok = evaluate_bind(IpClass::V4AndV6, None, None);
    assert_eq!(ok, Ok((true, true)));

    assert!(IpClass::V4Only.has_v4() && !IpClass::V4Only.has_v6());
    assert!(!IpClass::V6Only.has_v4() && IpClass::V6Only.has_v6());
    assert!(IpClass::V4AndV6.has_v4() && IpClass::V4AndV6.has_v6());
}

#[test]
fn send_family_selection() {
    assert_eq!(choose_send_family(Mode::V4, true, true), IP::Ipv4);
    assert_eq!(choose_send_family(Mode::V6, true, true), IP::Ipv6);
    assert_eq!(choose_send_family(Mode::Any, true, true), IP::Ipv4);
    assert_eq!(choose_send_family(Mode::Any, false, true), IP::Ipv6);
}

#[test]
fn builder_rejects_invalid_attributes() {
    let d = Discoverer::new(b("svc"), b("p1"));
    match d.with_txt_attributes(vec![(b(""), None)]) {
        Err(e) => assert_eq!(e, swarm_discovery::TxtAttributeError::EmptyKey),
        Ok(_) => panic!("empty key accepted"),
    }
    let d = Discoverer::new(b("svc"), b("p1"));
    match d.with_txt_attributes(vec![(b("k"), Some(vec![b'v'; 254]))]) {
        Err(e) => assert_eq!(e, swarm_discovery::TxtAttributeError::TooLong),
        Ok(_) => panic!("overlong pair accepted"),
    }
    let d = Discoverer::new(b("svc"), b("p1"));
    assert!(d.with_txt_attributes(vec![(b("k"), Some(vec![b'v'; 253]))]).is_ok());
}

#[test]
fn txt_record_carries_wire_strings_in_order() {
    let d = two_peer_setup("peer_id1", 8000)
        .with_txt_attributes(vec![(b("a"), Some(b("1"))), (b("b"), None)])
        .expect("valid attributes");
    let service = d.validate_names().expect("valid names");
    let response = make_response(&d.advert, &d.peer_id, &service).expect("advertising");
    // SRV answer first, TXT answer last
    assert_eq!(response.answers.len(), 2);
    match &response.answers[1].data {
        RecordData::Txt(strings) => {
            assert_eq!(strings, &vec![b("a=1"), b("b")]);
        }
        _ => panic!("last answer is not TXT"),
    }
}

#[test]
fn srv_records_use_per_port_targets() {
    let d = two_peer_setup("peer_id1", 8000);
    let service = d.validate_names().expect("valid names");
    let response = make_response(&d.advert, &d.peer_id, &service).expect("advertising");
    match &response.answers[0].data {
        RecordData::Srv { priority, weight, port, target } => {
            assert_eq!((*priority, *weight, *port), (0, 0, 8000));
            assert_eq!(target.labels, vec![b("peer_id1-8000"), b("local")]);
        }
        _ => panic!("first answer is not SRV"),
    }
    assert_eq!(response.answers[0].name.labels, vec![
        b("peer_id1"),
        b("_test_service"),
        b("_udp"),
        b("local")
    ]);
    assert_eq!(response.answers[0].ttl, 0);
}
