//! End-to-end scenarios: literal request bytes in, literal response bytes out.

use segcache::admin::{parse_admin_request, stats_response, AdminRequest};
use segcache::cache::SegCache;
use segcache::common::ping_reply;
use segcache::executor::{execute, process_session, execute_all};
use segcache::protocol::{MemcacheRequestParser, ParseError, TimeType};
use segcache::response::compose_response;
use segcache::session::{Session, State};

const NOW: u32 = 0;
const NOW_UNIX: u32 = 1700000000;

fn parser() -> MemcacheRequestParser {
    MemcacheRequestParser::new(1024 * 1024, TimeType::Memcache)
}

/// Run one request through parse, execute and compose; empty bytes out means
/// `noreply`.
fn roundtrip(cache: &mut SegCache, input: &[u8]) -> Vec<u8> {
    let po = parser().parse(input, NOW_UNIX).expect("request should parse");
    assert_eq!(po.consumed, input.len());
    let message = po.into_inner();
    match execute(cache, &message, NOW) {
        Some(resp) => compose_response(&resp),
        None => Vec::new(),
    }
}

#[test]
fn set_then_get_round_trip() {
    let mut cache = SegCache::new(8, 1 << 20, 64);
    assert_eq!(roundtrip(&mut cache, b"set foo 0 0 3\r\nbar\r\n"), b"STORED\r\n".to_vec());
    assert_eq!(
        roundtrip(&mut cache, b"get foo\r\n"),
        b"VALUE foo 0 3\r\nbar\r\nEND\r\n".to_vec()
    );
}

#[test]
fn add_after_set_is_not_stored() {
    let mut cache = SegCache::new(8, 1 << 20, 64);
    assert_eq!(roundtrip(&mut cache, b"set foo 0 0 3\r\nbar\r\n"), b"STORED\r\n".to_vec());
    assert_eq!(roundtrip(&mut cache, b"add foo 0 0 1\r\nx\r\n"), b"NOT_STORED\r\n".to_vec());
}

#[test]
fn delete_then_delete_again() {
    let mut cache = SegCache::new(8, 1 << 20, 64);
    assert_eq!(roundtrip(&mut cache, b"set foo 0 0 3\r\nbar\r\n"), b"STORED\r\n".to_vec());
    assert_eq!(roundtrip(&mut cache, b"delete foo\r\n"), b"DELETED\r\n".to_vec());
    assert_eq!(roundtrip(&mut cache, b"delete foo\r\n"), b"NOT_FOUND\r\n".to_vec());
}

#[test]
fn set_noreply_then_get_two_keys() {
    let mut cache = SegCache::new(8, 1 << 20, 64);
    assert_eq!(roundtrip(&mut cache, b"set a 0 0 1 noreply\r\n1\r\n"), Vec::<u8>::new());
    assert_eq!(
        roundtrip(&mut cache, b"get a b\r\n"),
        b"VALUE a 0 1\r\n1\r\nEND\r\n".to_vec()
    );
}

#[test]
fn gets_reports_cas_and_stale_cas_exists() {
    let mut cache = SegCache::new(8, 1 << 20, 64);
    assert_eq!(roundtrip(&mut cache, b"set a 0 0 1 noreply\r\n1\r\n"), Vec::<u8>::new());
    assert_eq!(
        roundtrip(&mut cache, b"gets a\r\n"),
        b"VALUE a 0 1 1\r\n1\r\nEND\r\n".to_vec()
    );
    assert_eq!(roundtrip(&mut cache, b"cas a 0 0 1 7\r\n2\r\n"), b"EXISTS\r\n".to_vec());
}

#[test]
fn responses_follow_request_order() {
    let mut cache = SegCache::new(8, 1 << 20, 64);
    let p = parser();
    let mut requests = Vec::new();
    for input in [
        b"set x 0 0 1\r\n1\r\n".as_slice(),
        b"get x\r\n".as_slice(),
        b"delete x\r\n".as_slice(),
        b"get x\r\n".as_slice(),
    ] {
        requests.push(p.parse(input, NOW_UNIX).unwrap().into_inner());
    }
    let replies = execute_all(&mut cache, &requests, NOW);
    assert_eq!(replies.len(), 4);
    assert_eq!(replies[0], b"STORED\r\n".to_vec());
    assert_eq!(replies[1], b"VALUE x 0 1\r\n1\r\nEND\r\n".to_vec());
    assert_eq!(replies[2], b"DELETED\r\n".to_vec());
    assert_eq!(replies[3], b"END\r\n".to_vec());
}

#[test]
fn session_processes_pipelined_requests_in_order() {
    let mut cache = SegCache::new(8, 1 << 20, 64);
    let p = parser();
    let mut session = Session::new(State::Established);
    let _ = session.read_buffer.write(b"set foo 0 0 3\r\nbar\r\nget foo\r\n");
    let (ok, _trace) = process_session(&mut cache, &p, &mut session, NOW, NOW_UNIX);
    assert!(ok);
    assert_eq!(
        session.write_buffer.as_slice(),
        b"STORED\r\nVALUE foo 0 3\r\nbar\r\nEND\r\n"
    );
    assert_eq!(session.read_buffer.pending(), 0);
}

#[test]
fn session_keeps_partial_request_buffered() {
    let mut cache = SegCache::new(8, 1 << 20, 64);
    let p = parser();
    let mut session = Session::new(State::Established);
    let _ = session.read_buffer.write(b"get foo\r\nset x 0 0 9\r\nabc");
    let (ok, _trace) = process_session(&mut cache, &p, &mut session, NOW, NOW_UNIX);
    assert!(ok);
    assert_eq!(session.write_buffer.as_slice(), b"END\r\n");
    assert_eq!(session.read_buffer.as_slice(), b"set x 0 0 9\r\nabc");
}

#[test]
fn session_rejects_malformed_input() {
    let mut cache = SegCache::new(8, 1 << 20, 64);
    let p = parser();
    let mut session = Session::new(State::Established);
    let _ = session.read_buffer.write(b"bogus nonsense\r\n");
    assert!(!process_session(&mut cache, &p, &mut session, NOW, NOW_UNIX).0);
}

#[test]
fn stats_lines_come_out_sorted() {
    let stats = vec![
        (b"tcp_recv".to_vec(), 7u64),
        (b"admin_request_parse".to_vec(), 1u64),
        (b"get".to_vec(), 42u64),
    ];
    let out = stats_response(stats);
    assert_eq!(
        out,
        b"STAT admin_request_parse 1\r\nSTAT get 42\r\nSTAT tcp_recv 7\r\nEND\r\n".to_vec()
    );
}

#[test]
fn admin_recognizes_stats_in_any_casing() {
    assert_eq!(parse_admin_request(b"stats\r\n"), Ok((AdminRequest::Stats, 7)));
    assert_eq!(parse_admin_request(b"STATS\r\n"), Ok((AdminRequest::Stats, 7)));
    assert_eq!(parse_admin_request(b"Stats\r\n"), Ok((AdminRequest::Stats, 7)));
    assert_eq!(parse_admin_request(b"sTaTs\r\n"), Ok((AdminRequest::Stats, 7)));
    assert_eq!(parse_admin_request(b"stat"), Err(ParseError::Incomplete));
    assert_eq!(parse_admin_request(b"flush_a"), Err(ParseError::Invalid));
}

#[test]
fn quit_closes_after_pending_replies() {
    let mut cache = SegCache::new(8, 1 << 20, 64);
    let p = parser();
    let mut session = Session::new(State::Established);
    let _ = session.read_buffer.write(b"set foo 0 0 3\r\nbar\r\nquit\r\nget foo\r\n");
    let (keep_open, _trace) = process_session(&mut cache, &p, &mut session, NOW, NOW_UNIX);
    assert!(!keep_open);
    // the reply before the quit is pending; the quit itself is consumed and
    // everything after it stays unread
    assert_eq!(session.write_buffer.as_slice(), b"STORED\r\n");
    assert_eq!(session.read_buffer.as_slice(), b"get foo\r\n");
}

#[test]
fn ping_gets_pong() {
    assert_eq!(ping_reply(b"PING\r\n"), Ok(Some(b"PONG\r\n".to_vec())));
    assert_eq!(ping_reply(b"PIN"), Ok(None));
    assert_eq!(ping_reply(b"PING\r"), Ok(None));
    assert_eq!(ping_reply(b"NOPE!!\r\n"), Err(()));
}
