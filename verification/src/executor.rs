//! The request executor: dispatch parsed requests against the storage facade
//! and build their responses.
//!
//! Responses are produced strictly in request order; a request with `noreply`
//! set produces no bytes. `spec_step_rel` is the abstract semantics of one
//! request: how it moves the cache and which wire bytes it answers; batch
//! execution and session processing are specified as chains of such steps.

use vstd::prelude::*;
use crate::cache::{
    SegCache, spec_can_store_req, spec_hits, spec_live, spec_stored_entry, spec_stored_entry_of,
};
use crate::protocol::{
    MemcacheCommand, MemcacheEntry, MemcacheRequest, MemcacheRequestParser, ParseError,
    RequestSpec, TimeType, spec_parse, spec_parse_command, spec_parse_write,
    lemma_parse_consumed_bounds, MAX_KEY_LEN,
};
use crate::response::{
    MemcacheResponse, spec_compose, spec_value_lines, lit_stored, lit_not_stored, lit_deleted,
    lit_not_found, lit_exists, lit_end, compose_response,
};
use crate::seg::ITEM_HDR_SIZE;
use crate::session::Session;

verus! {

/// Machine limit: the sizes of a write request's key and value must fit one
/// address space together with the item header.
pub open spec fn spec_req_sizes_ok(r: RequestSpec) -> bool {
    match r {
        RequestSpec::SetCmd { entry, .. } => entry.key.len() + entry.value.len() + ITEM_HDR_SIZE
            <= usize::MAX,
        RequestSpec::Add { entry, .. } => entry.key.len() + entry.value.len() + ITEM_HDR_SIZE
            <= usize::MAX,
        RequestSpec::Replace { entry, .. } => entry.key.len() + entry.value.len() + ITEM_HDR_SIZE
            <= usize::MAX,
        RequestSpec::Cas { entry, .. } => entry.key.len() + entry.value.len() + ITEM_HDR_SIZE
            <= usize::MAX && entry.cas is Some,
        _ => true,
    }
}

/// Whether the response option matches: `None` under `noreply`, the expected
/// response otherwise.
pub open spec fn resp_is(r: Option<MemcacheResponse>, noreply: bool, expected: MemcacheResponse)
    -> bool {
    if noreply {
        r is None
    } else {
        r == Option::Some(expected)
    }
}

/// The entry carried by a write request (meaningful only for writes).
pub open spec fn req_entry(r: MemcacheRequest) -> MemcacheEntry {
    match r {
        MemcacheRequest::SetCmd { entry, .. } => entry,
        MemcacheRequest::Add { entry, .. } => entry,
        MemcacheRequest::Replace { entry, .. } => entry,
        MemcacheRequest::Cas { entry, .. } => entry,
        _ => arbitrary(),
    }
}

/// What `execute` guarantees: the exact cache transition and typed response
/// of each request kind.
pub open spec fn spec_execute_post(
    c0: SegCache,
    c1: SegCache,
    request: MemcacheRequest,
    now: u32,
    r: Option<MemcacheResponse>,
) -> bool {
    let m0 = c0.contents();
    match request@ {
        RequestSpec::Get { keys } => {
            &&& c1 == c0
            &&& r matches Some(resp) && resp matches MemcacheResponse::Values { entries, cas }
                && !cas && entries@.map_values(
                |it: crate::seg::Item| crate::cache::spec_item_pair(it),
            ) == spec_hits(m0, keys, now)
        },
        RequestSpec::Gets { keys } => {
            &&& c1 == c0
            &&& r matches Some(resp) && resp matches MemcacheResponse::Values { entries, cas }
                && cas && entries@.map_values(
                |it: crate::seg::Item| crate::cache::spec_item_pair(it),
            ) == spec_hits(m0, keys, now)
        },
        RequestSpec::SetCmd { entry, noreply } => {
            let can = spec_can_store_req(c0, entry);
            &&& (can ==> c1.contents() == m0.insert(
                entry.key,
                spec_stored_entry(m0, req_entry(request), now),
            ) && resp_is(r, noreply, MemcacheResponse::Stored))
            &&& (!can ==> c1 == c0 && resp_is(r, noreply, MemcacheResponse::NotStored))
        },
        RequestSpec::Add { entry, noreply } => {
            let can = spec_can_store_req(c0, entry);
            let ok = !spec_live(m0, entry.key, now) && can;
            &&& (ok ==> c1.contents() == m0.insert(
                entry.key,
                spec_stored_entry(m0, req_entry(request), now),
            ) && resp_is(r, noreply, MemcacheResponse::Stored))
            &&& (!ok ==> c1 == c0 && resp_is(r, noreply, MemcacheResponse::NotStored))
        },
        RequestSpec::Replace { entry, noreply } => {
            let can = spec_can_store_req(c0, entry);
            let ok = spec_live(m0, entry.key, now) && can;
            &&& (ok ==> c1.contents() == m0.insert(
                entry.key,
                spec_stored_entry(m0, req_entry(request), now),
            ) && resp_is(r, noreply, MemcacheResponse::Stored))
            &&& (!ok ==> c1 == c0 && resp_is(r, noreply, MemcacheResponse::NotStored))
        },
        RequestSpec::Cas { entry, noreply } => {
            let can = spec_can_store_req(c0, entry);
            let live = spec_live(m0, entry.key, now);
            &&& (!live ==> c1 == c0 && resp_is(r, noreply, MemcacheResponse::NotFound))
            &&& (live && m0[entry.key].cas != entry.cas->0 ==> c1 == c0 && resp_is(
                r,
                noreply,
                MemcacheResponse::Exists,
            ))
            &&& (live && m0[entry.key].cas == entry.cas->0 && can ==> c1.contents() == m0.insert(
                entry.key,
                spec_stored_entry(m0, req_entry(request), now),
            ) && resp_is(r, noreply, MemcacheResponse::Stored))
            &&& (live && m0[entry.key].cas == entry.cas->0 && !can ==> c1 == c0 && resp_is(
                r,
                noreply,
                MemcacheResponse::NotStored,
            ))
        },
        RequestSpec::Delete { key, noreply } => {
            let live = spec_live(m0, key, now);
            &&& (live ==> c1.contents() == m0.remove(key) && resp_is(
                r,
                noreply,
                MemcacheResponse::Deleted,
            ))
            &&& (!live ==> c1 == c0 && resp_is(r, noreply, MemcacheResponse::NotFound))
        },
        RequestSpec::Quit => c1 == c0 && r is None,
    }
}

/// Execute one parsed request against the cache at tick `now` and return its
/// response, or `None` when the request asked for `noreply` (or was `quit`).
pub fn execute(cache: &mut SegCache, request: &MemcacheRequest, now: u32) -> (r: Option<
    MemcacheResponse,
>)
    requires
        old(cache).wf(),
        spec_req_sizes_ok(request@),
    ensures
        final(cache).wf(),
        spec_execute_post(*old(cache), *final(cache), *request, now, r),
{
    match request {
        MemcacheRequest::Get { keys } => {
            let entries = cache.get(keys, now);
            Some(MemcacheResponse::Values { entries, cas: false })
        },
        MemcacheRequest::Gets { keys } => {
            let entries = cache.get(keys, now);
            Some(MemcacheResponse::Values { entries, cas: true })
        },
        MemcacheRequest::SetCmd { entry, noreply } => {
            let resp = match cache.set(entry, now) {
                Ok(()) => MemcacheResponse::Stored,
                Err(_) => MemcacheResponse::NotStored,
            };
            if *noreply {
                None
            } else {
                Some(resp)
            }
        },
        MemcacheRequest::Add { entry, noreply } => {
            let resp = match cache.add(entry, now) {
                Ok(()) => MemcacheResponse::Stored,
                Err(_) => MemcacheResponse::NotStored,
            };
            if *noreply {
                None
            } else {
                Some(resp)
            }
        },
        MemcacheRequest::Replace { entry, noreply } => {
            let resp = match cache.replace(entry, now) {
                Ok(()) => MemcacheResponse::Stored,
                Err(_) => MemcacheResponse::NotStored,
            };
            if *noreply {
                None
            } else {
                Some(resp)
            }
        },
        MemcacheRequest::Cas { entry, noreply } => {
            let resp = match cache.cas(entry, now) {
                Ok(()) => MemcacheResponse::Stored,
                Err(crate::cache::MemcacheStorageError::NotFound) => MemcacheResponse::NotFound,
                Err(crate::cache::MemcacheStorageError::Exists) => MemcacheResponse::Exists,
                Err(crate::cache::MemcacheStorageError::NotStored) => MemcacheResponse::NotStored,
            };
            if *noreply {
                None
            } else {
                Some(resp)
            }
        },
        MemcacheRequest::Delete { key, noreply } => {
            let resp = match cache.delete(key.as_slice(), now) {
                Ok(()) => MemcacheResponse::Deleted,
                Err(_) => MemcacheResponse::NotFound,
            };
            if *noreply {
                None
            } else {
                Some(resp)
            }
        },
        MemcacheRequest::Quit => None,
    }
}

/// A status line, or nothing under `noreply`.
pub open spec fn spec_status(noreply: bool, line: Seq<u8>) -> Seq<u8> {
    if noreply {
        Seq::empty()
    } else {
        line
    }
}

/// The abstract semantics of one request: how the cache moves from `c0` to
/// `c1` and which wire bytes `out` answer the request (empty under
/// `noreply`). This ties `execute`'s transition to the composed response.
pub open spec fn spec_step_rel(
    c0: SegCache,
    c1: SegCache,
    req: RequestSpec,
    now: u32,
    out: Seq<u8>,
) -> bool {
    let m0 = c0.contents();
    &&& c1.wf()
    &&& match req {
        RequestSpec::Get { keys } => c1 == c0 && out == spec_value_lines(
            spec_hits(m0, keys, now),
            false,
        ) + lit_end(),
        RequestSpec::Gets { keys } => c1 == c0 && out == spec_value_lines(
            spec_hits(m0, keys, now),
            true,
        ) + lit_end(),
        RequestSpec::SetCmd { entry, noreply } => {
            let can = spec_can_store_req(c0, entry);
            &&& (can ==> c1.contents() == m0.insert(
                entry.key,
                spec_stored_entry_of(m0, entry, now),
            ) && out == spec_status(noreply, lit_stored()))
            &&& (!can ==> c1 == c0 && out == spec_status(noreply, lit_not_stored()))
        },
        RequestSpec::Add { entry, noreply } => {
            let ok = !spec_live(m0, entry.key, now) && spec_can_store_req(c0, entry);
            &&& (ok ==> c1.contents() == m0.insert(
                entry.key,
                spec_stored_entry_of(m0, entry, now),
            ) && out == spec_status(noreply, lit_stored()))
            &&& (!ok ==> c1 == c0 && out == spec_status(noreply, lit_not_stored()))
        },
        RequestSpec::Replace { entry, noreply } => {
            let ok = spec_live(m0, entry.key, now) && spec_can_store_req(c0, entry);
            &&& (ok ==> c1.contents() == m0.insert(
                entry.key,
                spec_stored_entry_of(m0, entry, now),
            ) && out == spec_status(noreply, lit_stored()))
            &&& (!ok ==> c1 == c0 && out == spec_status(noreply, lit_not_stored()))
        },
        RequestSpec::Cas { entry, noreply } => {
            let can = spec_can_store_req(c0, entry);
            let live = spec_live(m0, entry.key, now);
            &&& (!live ==> c1 == c0 && out == spec_status(noreply, lit_not_found()))
            &&& (live && m0[entry.key].cas != entry.cas->0 ==> c1 == c0 && out == spec_status(
                noreply,
                lit_exists(),
            ))
            &&& (live && m0[entry.key].cas == entry.cas->0 && can ==> c1.contents() == m0.insert(
                entry.key,
                spec_stored_entry_of(m0, entry, now),
            ) && out == spec_status(noreply, lit_stored()))
            &&& (live && m0[entry.key].cas == entry.cas->0 && !can ==> c1 == c0 && out
                == spec_status(noreply, lit_not_stored()))
        },
        RequestSpec::Delete { key, noreply } => {
            let live = spec_live(m0, key, now);
            &&& (live ==> c1.contents() == m0.remove(key) && out == spec_status(
                noreply,
                lit_deleted(),
            ))
            &&& (!live ==> c1 == c0 && out == spec_status(noreply, lit_not_found()))
        },
        RequestSpec::Quit => c1 == c0 && out == Seq::<u8>::empty(),
    }
}

/// The bytes a response option writes: the composed response, or nothing.
pub open spec fn spec_resp_bytes(r: Option<MemcacheResponse>) -> Seq<u8> {
    match r {
        Option::Some(resp) => spec_compose(resp),
        Option::None => Seq::empty(),
    }
}

/// `execute`'s transition together with the composed response bytes is one
/// abstract step.
pub proof fn lemma_step_from_execute(
    c0: SegCache,
    c1: SegCache,
    request: MemcacheRequest,
    now: u32,
    r: Option<MemcacheResponse>,
)
    requires
        c1.wf(),
        spec_execute_post(c0, c1, request, now, r),
    ensures
        spec_step_rel(c0, c1, request@, now, spec_resp_bytes(r)),
{
    let m0 = c0.contents();
    match request@ {
        RequestSpec::Get { keys } => {},
        RequestSpec::Gets { keys } => {},
        RequestSpec::SetCmd { entry, noreply } => {
            assert(spec_stored_entry(m0, req_entry(request), now) == spec_stored_entry_of(
                m0,
                entry,
                now,
            ));
        },
        RequestSpec::Add { entry, noreply } => {
            assert(spec_stored_entry(m0, req_entry(request), now) == spec_stored_entry_of(
                m0,
                entry,
                now,
            ));
        },
        RequestSpec::Replace { entry, noreply } => {
            assert(spec_stored_entry(m0, req_entry(request), now) == spec_stored_entry_of(
                m0,
                entry,
                now,
            ));
        },
        RequestSpec::Cas { entry, noreply } => {
            assert(spec_stored_entry(m0, req_entry(request), now) == spec_stored_entry_of(
                m0,
                entry,
                now,
            ));
        },
        RequestSpec::Delete { key, noreply } => {},
        RequestSpec::Quit => {},
    }
}

/// A chain of abstract steps: state `i` answers request `i` with bytes
/// `outs[i]` and moves to state `i + 1`.
pub open spec fn spec_exec_chain(
    cs: Seq<SegCache>,
    reqs: Seq<MemcacheRequest>,
    outs: Seq<Vec<u8>>,
    now: u32,
) -> bool {
    &&& cs.len() == reqs.len() + 1
    &&& outs.len() == reqs.len()
    &&& forall|i: int|
        0 <= i < reqs.len() ==> spec_step_rel(
            cs[i],
            cs[i + 1],
            (#[trigger] reqs[i])@,
            now,
            outs[i]@,
        )
}

/// Execute a batch of requests in order. The result has exactly one byte
/// string per request, in the same order as the requests: the wire response
/// that request produced against the cache state left by its predecessors,
/// empty when it asked for `noreply`. This is the per-connection ordering
/// guarantee: responses appear in the order of their triggering requests.
pub fn execute_all(cache: &mut SegCache, requests: &Vec<MemcacheRequest>, now: u32) -> (r: Vec<
    Vec<u8>,
>)
    requires
        old(cache).wf(),
        forall|i: int|
            0 <= i < requests@.len() ==> spec_req_sizes_ok((#[trigger] requests@[i])@),
    ensures
        final(cache).wf(),
        r@.len() == requests@.len(),
        exists|cs: Seq<SegCache>|
            cs[0] == *old(cache) && cs.last() == *final(cache) && #[trigger] spec_exec_chain(
                cs,
                requests@,
                r@,
                now,
            ),
{
    let mut out: Vec<Vec<u8>> = Vec::new();
    let ghost mut cs: Seq<SegCache> = seq![*old(cache)];
    let mut i: usize = 0;
    while i < requests.len()
        invariant
            cache.wf(),
            i <= requests@.len(),
            out@.len() == i,
            forall|j: int|
                0 <= j < requests@.len() ==> spec_req_sizes_ok((#[trigger] requests@[j])@),
            cs.len() == i + 1,
            cs[0] == *old(cache),
            cs.last() == *cache,
            forall|j: int|
                0 <= j < i ==> spec_step_rel(
                    cs[j],
                    cs[j + 1],
                    (#[trigger] requests@[j])@,
                    now,
                    out@[j]@,
                ),
        decreases requests@.len() - i,
    {
        let req = &requests[i];
        let ghost c_pre = *cache;
        let resp = execute(cache, req, now);
        let bytes: Vec<u8> = match resp {
            Some(resp) => compose_response(&resp),
            None => Vec::new(),
        };
        proof {
            lemma_step_from_execute(c_pre, *cache, *req, now, resp);
            assert(bytes@ == spec_resp_bytes(resp));
            cs = cs.push(*cache);
        }
        out.push(bytes);
        i = i + 1;
    }
    proof {
        assert(spec_exec_chain(cs, requests@, out@, now));
    }
    out
}

/// One step of a session trace: the bytes at stage `i` parse to a request
/// that is not `quit`, the stage consumes exactly the parsed length, and the
/// caches and output bytes of the stage are one abstract step.
pub open spec fn spec_trace_step(
    cs: Seq<SegCache>,
    bufs: Seq<Seq<u8>>,
    outs: Seq<Seq<u8>>,
    i: int,
    max_value_size: int,
    tt: TimeType,
    now: u32,
    now_unix: u32,
) -> bool {
    let pr = spec_parse(bufs[i], max_value_size, tt, now_unix);
    &&& pr is Ok
    &&& !(pr->Ok_0.0 is Quit)
    &&& 0 < pr->Ok_0.1 <= bufs[i].len()
    &&& bufs[i + 1] == bufs[i].skip(pr->Ok_0.1)
    &&& spec_step_rel(cs[i], cs[i + 1], pr->Ok_0.0, now, outs[i])
}

/// A session trace: a run of cache states, remaining-buffer states and
/// per-request output bytes in which every stage is one `spec_trace_step`.
pub open spec fn spec_session_trace(
    cs: Seq<SegCache>,
    bufs: Seq<Seq<u8>>,
    outs: Seq<Seq<u8>>,
    max_value_size: int,
    tt: TimeType,
    now: u32,
    now_unix: u32,
) -> bool {
    &&& cs.len() == bufs.len()
    &&& cs.len() == outs.len() + 1
    &&& forall|i: int|
        0 <= i < outs.len() ==> #[trigger] spec_trace_step(
            cs,
            bufs,
            outs,
            i,
            max_value_size,
            tt,
            now,
            now_unix,
        )
}

/// How a session drive ends, given the bytes left at the last stage: with
/// `ok`, no full request remains and the bytes stay buffered; without `ok`,
/// either the bytes are malformed and stay, or they begin with a `quit`,
/// which is consumed before the connection closes.
pub open spec fn spec_session_end(
    buf_end: Seq<u8>,
    buf_final: Seq<u8>,
    ok: bool,
    max_value_size: int,
    tt: TimeType,
    now_unix: u32,
) -> bool {
    let pr = spec_parse(buf_end, max_value_size, tt, now_unix);
    if ok {
        pr == Result::<(RequestSpec, int), ParseError>::Err(ParseError::Incomplete) && buf_final
            == buf_end
    } else {
        (pr == Result::<(RequestSpec, int), ParseError>::Err(ParseError::Invalid) && buf_final
            == buf_end) || (pr matches Result::Ok(p) && p.0 is Quit && 0 < p.1 <= buf_end.len()
            && buf_final == buf_end.skip(p.1))
    }
}

/// Every request a parse yields satisfies the machine size limits, given the
/// parser's value cap leaves room for a key and an item header.
proof fn lemma_parse_sizes_ok(
    b: Seq<u8>,
    max_value_size: int,
    tt: TimeType,
    now_unix: u32,
)
    requires
        0 <= max_value_size <= usize::MAX - MAX_KEY_LEN - ITEM_HDR_SIZE,
        spec_parse(b, max_value_size, tt, now_unix) is Ok,
    ensures
        spec_req_sizes_ok(spec_parse(b, max_value_size, tt, now_unix)->Ok_0.0),
{
    match spec_parse_command(b) {
        Result::Err(_) => {},
        Result::Ok(cmd) => {
            if cmd == MemcacheCommand::SetCmd || cmd == MemcacheCommand::Add || cmd
                == MemcacheCommand::Replace || cmd == MemcacheCommand::Cas {
                let is_cas = cmd == MemcacheCommand::Cas;
                let w = spec_parse_write(b, is_cas, max_value_size, tt, now_unix);
                assert(w is Ok);
                crate::protocol::lemma_find_crlf_props(b, 0);
                crate::protocol::lemma_find_byte_props(b, crate::protocol::SP, 0);
                let e = w->Ok_0.0;
                assert(e.key.len() <= MAX_KEY_LEN);
                assert(e.value.len() <= max_value_size);
                if is_cas {
                    assert(e.cas is Some);
                }
            }
        },
    }
}

/// Drive one session: parse requests from its read buffer and execute each
/// against the cache in arrival order, appending each response (in that same
/// order) to the session's write buffer, until the buffer holds no full
/// request. Returns `false` when the connection must close: on a malformed
/// request, or after a `quit`. The second result is the drive's trace: the
/// run of cache states, remaining buffers and per-request outputs whose
/// concatenation is exactly what was appended to the write buffer.
pub fn process_session(
    cache: &mut SegCache,
    parser: &MemcacheRequestParser,
    session: &mut Session,
    now: u32,
    now_unix: u32,
) -> (r: (bool, Ghost<(Seq<SegCache>, Seq<Seq<u8>>, Seq<Seq<u8>>)>))
    requires
        old(cache).wf(),
        parser.max_value_size <= usize::MAX - MAX_KEY_LEN - ITEM_HDR_SIZE,
    ensures
        final(cache).wf(),
        final(session).state == old(session).state,
        final(session).token == old(session).token,
        final(session).write_buffer.data@.len() >= old(session).write_buffer.data@.len(),
        final(session).write_buffer.data@.take(old(session).write_buffer.data@.len() as int)
            == old(session).write_buffer.data@,
        ({
            let (cs, bufs, outs) = r.1@;
            &&& spec_session_trace(
                cs,
                bufs,
                outs,
                parser.max_value_size as int,
                parser.time_type,
                now,
                now_unix,
            )
            &&& cs.len() >= 1
            &&& cs[0] == *old(cache)
            &&& cs.last() == *final(cache)
            &&& bufs[0] == old(session).read_buffer.data@
            &&& spec_session_end(
                bufs.last(),
                final(session).read_buffer.data@,
                r.0,
                parser.max_value_size as int,
                parser.time_type,
                now_unix,
            )
            &&& final(session).write_buffer.data@.skip(
                old(session).write_buffer.data@.len() as int,
            ) == outs.flatten()
        }),
    decreases old(session).read_buffer.data@.len(),
{
    let ghost buf0 = session.read_buffer.data@;
    let ghost wb0 = session.write_buffer.data@;
    let ghost max = parser.max_value_size as int;
    let ghost tt = parser.time_type;
    let parsed = parser.parse(session.read_buffer.as_slice(), now_unix);
    match parsed {
        Err(ParseError::Incomplete) => {
            let ghost trace = (seq![*cache], seq![buf0], Seq::<Seq<u8>>::empty());
            proof {
                assert(session.write_buffer.data@.skip(wb0.len() as int) =~= Seq::<u8>::empty());
                assert(session.write_buffer.data@.take(wb0.len() as int) =~= wb0);
                assert(Seq::<Seq<u8>>::empty().flatten() =~= Seq::<u8>::empty());
            }
            (true, Ghost(trace))
        },
        Err(ParseError::Invalid) => {
            let ghost trace = (seq![*cache], seq![buf0], Seq::<Seq<u8>>::empty());
            proof {
                assert(session.write_buffer.data@.skip(wb0.len() as int) =~= Seq::<u8>::empty());
                assert(session.write_buffer.data@.take(wb0.len() as int) =~= wb0);
                assert(Seq::<Seq<u8>>::empty().flatten() =~= Seq::<u8>::empty());
            }
            (false, Ghost(trace))
        },
        Ok(po) => {
            proof {
                lemma_parse_consumed_bounds(buf0, max, tt, now_unix);
                lemma_parse_sizes_ok(buf0, max, tt, now_unix);
            }
            let consumed = po.consumed();
            let message = po.into_inner();
            if matches!(&message, MemcacheRequest::Quit) {
                session.read_buffer.consume(consumed);
                let ghost trace = (seq![*cache], seq![buf0], Seq::<Seq<u8>>::empty());
                proof {
                    assert(session.write_buffer.data@.skip(wb0.len() as int)
                        =~= Seq::<u8>::empty());
                    assert(session.write_buffer.data@.take(wb0.len() as int) =~= wb0);
                    assert(Seq::<Seq<u8>>::empty().flatten() =~= Seq::<u8>::empty());
                }
                return (false, Ghost(trace));
            }
            let ghost c_pre = *cache;
            let resp = execute(cache, &message, now);
            match resp {
                Some(ref resp_value) => {
                    let bytes = compose_response(resp_value);
                    let _ = session.write(bytes.as_slice());
                },
                None => {},
            }
            let ghost cm = *cache;
            let ghost o = spec_resp_bytes(resp);
            proof {
                lemma_step_from_execute(c_pre, cm, message, now, resp);
                assert(session.write_buffer.data@ == wb0 + o);
            }
            session.read_buffer.consume(consumed);
            let ghost wb1 = session.write_buffer.data@;
            let (r, inner_trace) = process_session(cache, parser, session, now, now_unix);
            let ghost (cs1, bufs1, outs1) = inner_trace@;
            let ghost cs2 = seq![c_pre] + cs1;
            let ghost bufs2 = seq![buf0] + bufs1;
            let ghost outs2 = seq![o] + outs1;
            proof {
                // this stage, then the recursive drive's stages
                assert forall|i: int|
                    0 <= i < outs2.len() implies #[trigger] spec_trace_step(
                    cs2,
                    bufs2,
                    outs2,
                    i,
                    max,
                    tt,
                    now,
                    now_unix,
                ) by {
                    if i == 0 {
                        assert(bufs2[0] == buf0);
                        assert(spec_parse(buf0, max, tt, now_unix) == Result::<
                            (RequestSpec, int),
                            ParseError,
                        >::Ok((message@, consumed as int)));
                        assert(!(message@ is Quit));
                        assert(cs2[0] == c_pre && cs2[1] == cs1[0]);
                        assert(cs1[0] == cm);
                        assert(bufs2[1] == bufs1[0]);
                        assert(bufs1[0] == buf0.skip(consumed as int));
                        assert(outs2[0] == o);
                    } else {
                        assert(spec_trace_step(cs1, bufs1, outs1, i - 1, max, tt, now, now_unix));
                        assert(cs2[i] == cs1[i - 1] && cs2[i + 1] == cs1[i]);
                        assert(bufs2[i] == bufs1[i - 1] && bufs2[i + 1] == bufs1[i]);
                        assert(outs2[i] == outs1[i - 1]);
                    }
                }
                assert(spec_session_trace(cs2, bufs2, outs2, max, tt, now, now_unix));
                assert(cs2.last() == cs1.last() && bufs2.last() == bufs1.last());
                // the appended bytes are this response followed by the rest
                let rest = session.write_buffer.data@.skip(wb1.len() as int);
                let total = session.write_buffer.data@.skip(wb0.len() as int);
                assert(session.write_buffer.data@.take(wb1.len() as int) == wb1);
                assert(session.write_buffer.data@ =~= wb1 + rest);
                assert(wb1 == wb0 + o);
                assert(total =~= o + rest);
                assert(session.write_buffer.data@.take(wb0.len() as int) =~= wb0);
                assert(rest == outs1.flatten());
                assert(outs2.flatten() == o + outs1.flatten()) by {
                    assert(outs2.first() == o);
                    assert(outs2.drop_first() =~= outs1);
                }
                assert(total == outs2.flatten());
            }
            (r, Ghost((cs2, bufs2, outs2)))
        },
    }
}

} // verus!
