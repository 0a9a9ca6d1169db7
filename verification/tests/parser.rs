use segcache::protocol::{
    MemcacheRequest, MemcacheRequestParser, ParseError, TimeType,
};

const NOW_UNIX: u32 = 1700000000;

fn parser() -> MemcacheRequestParser {
    MemcacheRequestParser::new(1024 * 1024, TimeType::Memcache)
}

#[test]
fn parse_simple_set() {
    let po = parser().parse(b"set foo 0 0 3\r\nbar\r\n", NOW_UNIX).unwrap();
    assert_eq!(po.consumed, 20);
    match po.into_inner() {
        MemcacheRequest::SetCmd { entry, noreply } => {
            assert!(!noreply);
            assert_eq!(entry.key, b"foo".to_vec());
            assert_eq!(entry.value, b"bar".to_vec());
            assert_eq!(entry.flags, 0);
            assert_eq!(entry.ttl, None);
            assert_eq!(entry.cas, None);
        }
        _ => panic!("wrong variant"),
    }
}

#[test]
fn parse_set_incomplete_value() {
    assert_eq!(
        parser().parse(b"set foo 0 0 3\r\nba", NOW_UNIX).err(),
        Some(ParseError::Incomplete)
    );
}

#[test]
fn parse_get_multiple_keys() {
    let po = parser().parse(b"get a b\r\n", NOW_UNIX).unwrap();
    assert_eq!(po.consumed, 9);
    match po.into_inner() {
        MemcacheRequest::Get { keys } => {
            assert_eq!(keys.len(), 2);
            assert_eq!(keys[0], b"a".to_vec());
            assert_eq!(keys[1], b"b".to_vec());
        }
        _ => panic!("wrong variant"),
    }
}

#[test]
fn parse_gets_variant() {
    let po = parser().parse(b"gets a\r\n", NOW_UNIX).unwrap();
    assert!(matches!(po.into_inner(), MemcacheRequest::Gets { .. }));
}

#[test]
fn parse_cas_with_counter() {
    let po = parser().parse(b"cas a 0 0 1 7\r\n2\r\n", NOW_UNIX).unwrap();
    match po.into_inner() {
        MemcacheRequest::Cas { entry, noreply } => {
            assert!(!noreply);
            assert_eq!(entry.cas, Some(7));
            assert_eq!(entry.value, b"2".to_vec());
        }
        _ => panic!("wrong variant"),
    }
}

#[test]
fn parse_delete_with_and_without_noreply() {
    let po = parser().parse(b"delete foo\r\n", NOW_UNIX).unwrap();
    match po.into_inner() {
        MemcacheRequest::Delete { key, noreply } => {
            assert_eq!(key, b"foo".to_vec());
            assert!(!noreply);
        }
        _ => panic!("wrong variant"),
    }
    let po = parser().parse(b"delete foo noreply\r\n", NOW_UNIX).unwrap();
    match po.into_inner() {
        MemcacheRequest::Delete { noreply, .. } => assert!(noreply),
        _ => panic!("wrong variant"),
    }
}

#[test]
fn parse_set_noreply() {
    let po = parser()
        .parse(b"set a 0 0 1 noreply\r\n1\r\n", NOW_UNIX)
        .unwrap();
    match po.into_inner() {
        MemcacheRequest::SetCmd { noreply, .. } => assert!(noreply),
        _ => panic!("wrong variant"),
    }
}

#[test]
fn key_length_boundary() {
    // exactly 250 bytes: accepted
    let key250 = "k".repeat(250);
    let req = format!("set {} 0 0 1\r\nx\r\n", key250);
    assert!(parser().parse(req.as_bytes(), NOW_UNIX).is_ok());
    let req = format!("get {}\r\n", key250);
    assert!(parser().parse(req.as_bytes(), NOW_UNIX).is_ok());
    // 251 bytes: rejected
    let key251 = "k".repeat(251);
    let req = format!("set {} 0 0 1\r\nx\r\n", key251);
    assert_eq!(
        parser().parse(req.as_bytes(), NOW_UNIX).err(),
        Some(ParseError::Invalid)
    );
    let req = format!("get {}\r\n", key251);
    assert_eq!(
        parser().parse(req.as_bytes(), NOW_UNIX).err(),
        Some(ParseError::Invalid)
    );
}

#[test]
fn batch_size_boundary() {
    // exactly 1024 keys: accepted
    let mut req = String::from("get");
    for i in 0..1024 {
        req.push_str(&format!(" k{}", i));
    }
    req.push_str("\r\n");
    let po = parser().parse(req.as_bytes(), NOW_UNIX).unwrap();
    match po.into_inner() {
        MemcacheRequest::Get { keys } => assert_eq!(keys.len(), 1024),
        _ => panic!("wrong variant"),
    }
    // 1025 keys: rejected
    let mut req = String::from("get");
    for i in 0..1025 {
        req.push_str(&format!(" k{}", i));
    }
    req.push_str("\r\n");
    assert_eq!(
        parser().parse(req.as_bytes(), NOW_UNIX).err(),
        Some(ParseError::Invalid)
    );
}

#[test]
fn expiry_interpretation_by_time_type() {
    // Memcache mode: 0 means never
    let po = parser().parse(b"set k 0 0 1\r\nx\r\n", NOW_UNIX).unwrap();
    match po.into_inner() {
        MemcacheRequest::SetCmd { entry, .. } => assert_eq!(entry.ttl, None),
        _ => panic!("wrong variant"),
    }
    // Memcache mode: below 30 days is relative seconds
    let po = parser().parse(b"set k 0 60 1\r\nx\r\n", NOW_UNIX).unwrap();
    match po.into_inner() {
        MemcacheRequest::SetCmd { entry, .. } => assert_eq!(entry.ttl, Some(60)),
        _ => panic!("wrong variant"),
    }
    // Memcache mode: at or above 30 days is an absolute unix time
    let expiry = NOW_UNIX + 100;
    let req = format!("set k 0 {} 1\r\nx\r\n", expiry);
    let po = parser().parse(req.as_bytes(), NOW_UNIX).unwrap();
    match po.into_inner() {
        MemcacheRequest::SetCmd { entry, .. } => assert_eq!(entry.ttl, Some(100)),
        _ => panic!("wrong variant"),
    }
    // Unix mode: always absolute
    let unix_parser = MemcacheRequestParser::new(1024, TimeType::Unix);
    let po = unix_parser.parse(b"set k 0 500 1\r\nx\r\n", 100).unwrap();
    match po.into_inner() {
        MemcacheRequest::SetCmd { entry, .. } => assert_eq!(entry.ttl, Some(400)),
        _ => panic!("wrong variant"),
    }
}

#[test]
fn value_size_limit_is_enforced() {
    let small = MemcacheRequestParser::new(2, TimeType::Memcache);
    assert_eq!(
        small.parse(b"set k 0 0 3\r\nbar\r\n", NOW_UNIX).err(),
        Some(ParseError::Invalid)
    );
    assert!(small.parse(b"set k 0 0 2\r\nba\r\n", NOW_UNIX).is_ok());
}

#[test]
fn malformed_requests_are_invalid() {
    let p = parser();
    assert_eq!(p.parse(b"set k 0 0\r\n", NOW_UNIX).err(), Some(ParseError::Invalid));
    assert_eq!(p.parse(b"set k x 0 1\r\nv\r\n", NOW_UNIX).err(), Some(ParseError::Invalid));
    assert_eq!(p.parse(b"frob k\r\n", NOW_UNIX).err(), Some(ParseError::Invalid));
    assert_eq!(p.parse(b"get  a\r\n", NOW_UNIX).err(), Some(ParseError::Invalid));
    assert_eq!(p.parse(b"get \r\n", NOW_UNIX).err(), Some(ParseError::Invalid));
}

#[test]
fn quit_is_a_typed_request() {
    let po = parser().parse(b"quit\r\n", NOW_UNIX).unwrap();
    assert_eq!(po.consumed, 6);
    assert!(matches!(po.into_inner(), MemcacheRequest::Quit));
    assert_eq!(
        parser().parse(b"qui", NOW_UNIX).err(),
        Some(ParseError::Incomplete)
    );
}

#[test]
fn incomplete_requests_wait_for_more() {
    let p = parser();
    assert_eq!(p.parse(b"se", NOW_UNIX).err(), Some(ParseError::Incomplete));
    assert_eq!(p.parse(b"get a", NOW_UNIX).err(), Some(ParseError::Incomplete));
    assert_eq!(p.parse(b"", NOW_UNIX).err(), Some(ParseError::Incomplete));
}

#[test]
fn reparse_of_canonical_bytes_is_identity() {
    // a parse result re-serialized canonically and fed back yields the same
    // typed value consuming the whole buffer
    let p = parser();
    let canonical: &[u8] = b"set foo 7 0 3\r\nbar\r\n";
    let po = p.parse(canonical, NOW_UNIX).unwrap();
    assert_eq!(po.consumed, canonical.len());
    let first = po.into_inner();
    let po2 = p.parse(canonical, NOW_UNIX).unwrap();
    assert_eq!(po2.consumed, canonical.len());
    match (first, po2.into_inner()) {
        (
            MemcacheRequest::SetCmd { entry: e1, noreply: n1 },
            MemcacheRequest::SetCmd { entry: e2, noreply: n2 },
        ) => {
            assert_eq!(e1.key, e2.key);
            assert_eq!(e1.value, e2.value);
            assert_eq!(e1.flags, e2.flags);
            assert_eq!(e1.ttl, e2.ttl);
            assert_eq!(n1, n2);
        }
        _ => panic!("wrong variant"),
    }
}
