use swarm_discovery::addr::IpAddr;
use swarm_discovery::advert::LocalAdvertisement;
use swarm_discovery::guardian::Input;
use swarm_discovery::sender::apply_update;

fn b(s: &str) -> Vec<u8> {
    s.as_bytes().to_vec()
}

const LOOPBACK_V4: IpAddr = IpAddr::V4(0x7f000001);
const LOOPBACK_V6: IpAddr = IpAddr::V6(1);

#[test]
fn add_sorts_and_deduplicates() {
    let mut adv = LocalAdvertisement::new();
    adv.add(9, &vec![IpAddr::V4(2), IpAddr::V4(1), IpAddr::V4(2)]);
    adv.add(9, &vec![IpAddr::V4(1)]);
    assert!(adv.present);
    assert_eq!(adv.addrs, vec![(IpAddr::V4(1), 9), (IpAddr::V4(2), 9)]);
}

#[test]
fn pairs_order_v4_before_v6() {
    let mut adv = LocalAdvertisement::new();
    adv.add(1, &vec![LOOPBACK_V6]);
    adv.add(2, &vec![LOOPBACK_V4]);
    adv.add(1, &vec![LOOPBACK_V4]);
    assert_eq!(
        adv.addrs,
        vec![(LOOPBACK_V4, 1), (LOOPBACK_V4, 2), (LOOPBACK_V6, 1)]
    );
}

#[test]
fn remove_port_twice_equals_once() {
    let mut once = LocalAdvertisement::new();
    once.add(8000, &vec![LOOPBACK_V4, LOOPBACK_V6]);
    once.add(9000, &vec![LOOPBACK_V4]);
    let mut twice = LocalAdvertisement::new();
    twice.add(8000, &vec![LOOPBACK_V4, LOOPBACK_V6]);
    twice.add(9000, &vec![LOOPBACK_V4]);

    once.remove_port(8000);
    twice.remove_port(8000);
    twice.remove_port(8000);
    assert_eq!(once.addrs, twice.addrs);
    assert_eq!(once.addrs, vec![(LOOPBACK_V4, 9000)]);
}

#[test]
fn remove_addr_twice_equals_once() {
    let mut once = LocalAdvertisement::new();
    once.add(8000, &vec![LOOPBACK_V4, LOOPBACK_V6]);
    let mut twice = LocalAdvertisement::new();
    twice.add(8000, &vec![LOOPBACK_V4, LOOPBACK_V6]);

    once.remove_addr(LOOPBACK_V4);
    twice.remove_addr(LOOPBACK_V4);
    twice.remove_addr(LOOPBACK_V4);
    assert_eq!(once.addrs, twice.addrs);
    assert_eq!(once.addrs, vec![(LOOPBACK_V6, 8000)]);
}

#[test]
fn remove_txt_twice_equals_once() {
    let mut adv = LocalAdvertisement::new();
    adv.set_txt(b("k"), Some(b("v")));
    adv.set_txt(b("other"), None);
    adv.remove_txt(&b("k"));
    assert_eq!(adv.txt.get(&b("k")), None);
    assert_eq!(adv.txt.len(), 1);
    adv.remove_txt(&b("k"));
    assert_eq!(adv.txt.get(&b("k")), None);
    assert_eq!(adv.txt.len(), 1);
    assert_eq!(adv.txt.get(&b("other")), Some(None));
}

#[test]
fn remove_all_forgets_everything() {
    let mut adv = LocalAdvertisement::new();
    adv.add(8000, &vec![LOOPBACK_V4]);
    adv.set_txt(b("k"), None);
    apply_update(&mut adv, Input::RemoveAll);
    assert!(!adv.present);
    assert!(adv.addrs.is_empty());
    // a later change makes the node advertise again
    apply_update(&mut adv, Input::AddAddr(9000, vec![LOOPBACK_V6]));
    assert!(adv.present);
    assert_eq!(adv.addrs, vec![(LOOPBACK_V6, 9000)]);
    // but the attribute from before the removal stays gone
    assert_eq!(adv.txt.get(&b("k")), None);
}

#[test]
fn control_messages_mirror_methods() {
    let mut adv = LocalAdvertisement::new();
    apply_update(&mut adv, Input::AddAddr(8000, vec![LOOPBACK_V4]));
    apply_update(&mut adv, Input::SetTxt(b("k"), Some(b("v"))));
    assert_eq!(adv.addrs, vec![(LOOPBACK_V4, 8000)]);
    assert_eq!(adv.txt.get(&b("k")), Some(Some(b("v"))));
    apply_update(&mut adv, Input::RemovePort(8000));
    assert!(adv.addrs.is_empty());
    assert!(adv.present);
    apply_update(&mut adv, Input::RemoveTxt(b("k")));
    assert_eq!(adv.txt.get(&b("k")), None);
}
