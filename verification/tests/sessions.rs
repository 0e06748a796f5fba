use commit_pager::sessions::SessionId;
use rand::random;
use std::collections::HashMap;

#[test]
fn test_eq() {
    let s = random();
    assert_eq!(SessionId(s), SessionId(s));
    let s_id = SessionId(s);
    assert_eq!(s_id, SessionId::from(&s_id.to_string() as &str));
}

#[test]
fn test_hashmap() {
    let mut map = HashMap::<SessionId, i32>::new();
    let s = random();
    map.insert(SessionId(s), 42);
    assert_eq!(map.get_mut(&SessionId(s)), Some(&mut 42));
    assert_eq!(
        map.contains_key(&SessionId::from(&SessionId(s).to_string() as &str)),
        true
    );
}

#[test]
fn hex_of_known_bytes() {
    let mut bytes = [0u8; 20];
    for (i, b) in bytes.iter_mut().enumerate() {
        *b = (i as u8) * 13 + 1;
    }
    let id = SessionId(bytes);
    assert_eq!(id.to_string(), "010e1b2835424f5c697683909daab7c4d1deebf8");
    assert_eq!(SessionId::from("010e1b2835424f5c697683909daab7c4d1deebf8"), id);
    assert_eq!(SessionId([0u8; 20]).to_string(), "0".repeat(40));
    assert_eq!(SessionId([255u8; 20]).to_string(), "f".repeat(40));
}

#[test]
fn short_text_is_padded_with_zeros() {
    let mut bytes = [0u8; 20];
    assert_eq!(SessionId::parse(""), Some(SessionId(bytes)));
    bytes[0] = 0xa0;
    assert_eq!(SessionId::parse("a"), Some(SessionId(bytes)));
    bytes[0] = 0xab;
    bytes[1] = 0xc0;
    assert_eq!(SessionId::parse("abc"), Some(SessionId(bytes)));
}

#[test]
fn parse_rejects_other_texts() {
    assert_eq!(SessionId::parse("g"), None);
    assert_eq!(SessionId::parse("AB"), None);
    assert_eq!(SessionId::parse("0 "), None);
    assert_eq!(SessionId::parse("é"), None);
    assert_eq!(SessionId::parse(&"0".repeat(41)), None);
    assert!(SessionId::parse(&"0".repeat(40)).is_some());
}

#[test]
fn round_trip_of_random_identifiers() {
    for _ in 0..200 {
        let id = SessionId(random());
        let text = id.to_string();
        assert_eq!(text.len(), 40);
        assert_eq!(SessionId::parse(&text), Some(id));
    }
}
