use swarm_discovery::txt::{emit_pair, parse_pair, TxtMap};
use swarm_discovery::{validate_txt_attribute, TxtAttributeError};

fn b(s: &str) -> Vec<u8> {
    s.as_bytes().to_vec()
}

#[test]
fn empty_key_is_rejected() {
    assert_eq!(
        validate_txt_attribute(b"", Some(b"v")),
        Err(TxtAttributeError::EmptyKey)
    );
    assert_eq!(validate_txt_attribute(b"", None), Err(TxtAttributeError::EmptyKey));
}

#[test]
fn overlong_pair_is_rejected() {
    // key + value of 255 bytes in all: one over the limit
    let key = vec![b'k'; 1];
    let value = vec![b'v'; 254];
    assert_eq!(
        validate_txt_attribute(&key, Some(&value)),
        Err(TxtAttributeError::TooLong)
    );
}

#[test]
fn pair_at_the_limit_is_accepted() {
    // key + value of exactly 254 bytes
    let key = vec![b'k'; 100];
    let value = vec![b'v'; 154];
    assert_eq!(validate_txt_attribute(&key, Some(&value)), Ok(()));
    // a bare key of 254 bytes
    let key = vec![b'k'; 254];
    assert_eq!(validate_txt_attribute(&key, None), Ok(()));
    // a bare key of 255 bytes
    let key = vec![b'k'; 255];
    assert_eq!(validate_txt_attribute(&key, None), Err(TxtAttributeError::TooLong));
}

#[test]
fn wire_string_round_trip_value() {
    let s = emit_pair(&b("føø"), &Some(b("bär")));
    assert_eq!(s, b("føø=bär"));
    let parsed = parse_pair(&s).expect("parses");
    assert_eq!(parsed.0, b("føø"));
    assert_eq!(parsed.1, Some(b("bär")));
}

#[test]
fn wire_string_round_trip_flag() {
    let s = emit_pair(&b("bool"), &None);
    assert_eq!(s, b("bool"));
    let parsed = parse_pair(&s).expect("parses");
    assert_eq!(parsed.0, b("bool"));
    assert_eq!(parsed.1, None);
}

#[test]
fn value_keeps_equals_signs() {
    let s = emit_pair(&b("k"), &Some(b("a=b=c")));
    let parsed = parse_pair(&s).expect("parses");
    assert_eq!(parsed.0, b("k"));
    assert_eq!(parsed.1, Some(b("a=b=c")));
}

#[test]
fn keyless_strings_are_dropped() {
    assert!(parse_pair(&b("")).is_none());
    assert!(parse_pair(&b("=value")).is_none());
}

#[test]
fn map_round_trip() {
    let mut m = TxtMap::new();
    m.insert(b("name"), Some(b("peer=peer_id1")));
    m.insert(b("føø"), Some(b("bär")));
    m.insert(b("bool"), None);

    // emit every pair and absorb the strings into a fresh map
    let mut strings = Vec::new();
    for i in 0..m.len() {
        let p = m.pair_at(i);
        strings.push(emit_pair(&p.0, &p.1));
    }
    let mut back = TxtMap::new();
    back.absorb_strings(&strings);

    assert_eq!(back.len(), 3);
    assert_eq!(back.get(&b("name")), Some(Some(b("peer=peer_id1"))));
    assert_eq!(back.get(&b("føø")), Some(Some(b("bär"))));
    assert_eq!(back.get(&b("bool")), Some(None));
    assert_eq!(back.get(&b("missing")), None);
}

#[test]
fn insert_overwrites_and_remove_is_idempotent() {
    let mut m = TxtMap::new();
    m.insert(b("k"), Some(b("v1")));
    m.insert(b("k"), Some(b("v2")));
    assert_eq!(m.len(), 1);
    assert_eq!(m.get(&b("k")), Some(Some(b("v2"))));
    m.remove(&b("k"));
    assert_eq!(m.get(&b("k")), None);
    assert_eq!(m.len(), 0);
    m.remove(&b("k"));
    assert_eq!(m.len(), 0);
}
