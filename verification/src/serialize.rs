//! The canonical wire form of a request, and the proof that parsing it
//! yields the request back, consuming exactly its length.

use vstd::prelude::*;
use crate::protocol::{
    EntrySpec, RequestSpec, TimeType, ParseError, spec_find_byte, spec_find_crlf, spec_split,
    spec_trimmed, spec_tokens, spec_tokens_strict, spec_parse, spec_parse_command,
    spec_parse_get, spec_parse_write, spec_parse_delete, spec_parse_u32, spec_parse_u64,
    spec_is_digits, spec_digits_val, spec_ttl_from, spec_command_from, lit_get, lit_gets,
    lit_set, lit_add, lit_replace, lit_cas, lit_delete, lit_quit, lit_noreply,
    lemma_find_byte_first,
    lemma_find_byte_none, MemcacheCommand, CR, LF, SP, MAX_KEY_LEN, MAX_BATCH_SIZE,
    THIRTY_DAYS_SECS,
};
use crate::response::{spec_udec, lit_crlf};

verus! {

/// Whether `s` holds no space byte.
pub open spec fn no_sp(s: Seq<u8>) -> bool {
    forall|i: int| 0 <= i < s.len() ==> s[i] != SP
}

/// Whether `s` holds no CRLF pair.
pub open spec fn no_crlf(s: Seq<u8>) -> bool {
    forall|i: int| 0 <= i < s.len() - 1 ==> !((#[trigger] s[i]) == CR && s[i + 1] == LF)
}

/// Whether every token is nonempty and free of spaces and CRLF pairs — what
/// any token cut out of a request line satisfies.
pub open spec fn tokens_ok(toks: Seq<Seq<u8>>) -> bool {
    forall|i: int|
        0 <= i < toks.len() ==> (#[trigger] toks[i]).len() > 0 && no_sp(toks[i]) && no_crlf(
            toks[i],
        )
}

/// The tokens joined by single spaces.
pub open spec fn spec_join(toks: Seq<Seq<u8>>) -> Seq<u8>
    decreases toks.len(),
{
    if toks.len() == 0 {
        Seq::empty()
    } else if toks.len() == 1 {
        toks[0]
    } else {
        toks[0] + seq![SP] + spec_join(toks.drop_first())
    }
}

/// Concatenation keeps CRLF absence when no pair spans the boundary.
proof fn lemma_concat_no_crlf(a: Seq<u8>, b: Seq<u8>)
    requires
        no_crlf(a),
        no_crlf(b),
        !(a.len() > 0 && b.len() > 0 && a.last() == CR && b[0] == LF),
    ensures
        no_crlf(a + b),
{
    let c = a + b;
    assert forall|i: int| 0 <= i < c.len() - 1 implies !((#[trigger] c[i]) == CR && c[i + 1] == LF) by {
        if i + 1 < a.len() {
            assert(c[i] == a[i] && c[i + 1] == a[i + 1]);
        } else if i < a.len() {
            assert(c[i] == a[i] && c[i + 1] == b[0]);
            assert(a[i] == a.last());
        } else {
            assert(c[i] == b[i - a.len()] && c[i + 1] == b[i + 1 - a.len()]);
        }
    }
}

/// A join of clean tokens holds no CRLF pair.
proof fn lemma_join_no_crlf(toks: Seq<Seq<u8>>)
    requires
        tokens_ok(toks),
    ensures
        no_crlf(spec_join(toks)),
    decreases toks.len(),
{
    if toks.len() == 0 {
    } else if toks.len() == 1 {
        assert(no_crlf(toks[0]));
        assert(spec_join(toks) == toks[0]);
    } else {
        assert(tokens_ok(toks.drop_first())) by {
            assert forall|i: int|
                0 <= i < toks.drop_first().len() implies {
                let t = #[trigger] toks.drop_first()[i];
                t.len() > 0 && no_sp(t) && no_crlf(t)
            } by {
                assert(toks.drop_first()[i] == toks[i + 1]);
            }
        }
        lemma_join_no_crlf(toks.drop_first());
        let tail = spec_join(toks.drop_first());
        lemma_concat_no_crlf(seq![SP], tail);
        assert(no_crlf(seq![SP] + tail));
        lemma_concat_no_crlf(toks[0], seq![SP] + tail);
        assert(spec_join(toks) == toks[0] + (seq![SP] + tail)) by {
            assert(toks[0] + seq![SP] + tail =~= toks[0] + (seq![SP] + tail));
        }
    }
}

/// Splitting a join of clean tokens yields the tokens back.
proof fn lemma_split_join(toks: Seq<Seq<u8>>)
    requires
        tokens_ok(toks),
        toks.len() >= 1,
    ensures
        spec_split(spec_join(toks)) == toks,
    decreases toks.len(),
{
    let j = spec_join(toks);
    if toks.len() == 1 {
        assert(no_sp(toks[0]));
        assert(j == toks[0]);
        lemma_find_byte_none(j, SP, 0);
        assert(spec_split(j) == seq![j]);
        assert(seq![j] =~= toks);
    } else {
        let t0 = toks[0];
        let rest = toks.drop_first();
        assert(tokens_ok(rest)) by {
            assert forall|i: int|
                0 <= i < rest.len() implies {
                let t = #[trigger] rest[i];
                t.len() > 0 && no_sp(t) && no_crlf(t)
            } by {
                assert(rest[i] == toks[i + 1]);
            }
        }
        let jr = spec_join(rest);
        assert(j == t0 + seq![SP] + jr);
        assert(j.len() == t0.len() + 1 + jr.len());
        assert(j[t0.len() as int] == SP);
        assert forall|m: int| 0 <= m < t0.len() implies j[m] != SP by {
            assert(j[m] == t0[m]);
        }
        lemma_find_byte_first(j, SP, 0, t0.len() as int);
        assert(spec_split(j) == seq![j.take(t0.len() as int)] + spec_split(
            j.skip(t0.len() as int + 1),
        ));
        assert(j.take(t0.len() as int) =~= t0);
        assert(j.skip(t0.len() as int + 1) =~= jr);
        lemma_split_join(rest);
        assert(spec_split(j) =~= seq![t0] + rest);
        assert(seq![t0] + rest =~= toks);
    }
}

/// In `cmd + " " + join(toks) + "\r\n" + rest`, the first space sits right
/// after the command, the first CRLF right after the line, the command token
/// reads back exactly, and both tokenizations of the line yield the tokens.
proof fn lemma_line_shape(cmd: Seq<u8>, toks: Seq<Seq<u8>>, rest: Seq<u8>)
    requires
        cmd.len() > 0,
        no_sp(cmd),
        no_crlf(cmd),
        tokens_ok(toks),
        toks.len() >= 1,
    ensures
        ({
            let line = cmd + seq![SP] + spec_join(toks);
            let b = line + lit_crlf() + rest;
            &&& spec_find_byte(b, SP, 0) == Option::Some(cmd.len() as int)
            &&& spec_find_crlf(b, 0) == Option::Some(line.len() as int)
            &&& b.take(cmd.len() as int) == cmd
            &&& b.subrange(cmd.len() as int + 1, line.len() as int) == spec_join(toks)
            &&& spec_tokens(b.subrange(cmd.len() as int + 1, line.len() as int)) == Option::Some(toks)
            &&& spec_tokens_strict(b.subrange(cmd.len() as int + 1, line.len() as int))
                == Option::Some(toks)
            &&& b.len() == line.len() + 2 + rest.len()
        }),
{
    let join = spec_join(toks);
    let line = cmd + seq![SP] + join;
    let b = line + lit_crlf() + rest;
    assert(b.len() == line.len() + 2 + rest.len());
    // the first space
    assert(b[cmd.len() as int] == SP);
    assert forall|m: int| 0 <= m < cmd.len() implies b[m] != SP by {
        assert(b[m] == cmd[m]);
    }
    lemma_find_byte_first(b, SP, 0, cmd.len() as int);
    // the line holds no CRLF pair
    lemma_join_no_crlf(toks);
    assert(no_crlf(seq![SP] + join)) by {
        lemma_concat_no_crlf(seq![SP], join);
    }
    assert(no_crlf(line)) by {
        lemma_concat_no_crlf(cmd, seq![SP] + join);
        assert(line =~= cmd + (seq![SP] + join));
    }
    // the first CRLF closes the line
    assert(b[line.len() as int] == CR && b[line.len() as int + 1] == LF);
    assert forall|m: int| 0 <= m < line.len() implies !((#[trigger] b[m]) == CR && b[m + 1] == LF) by {
        if m + 1 < line.len() {
            assert(b[m] == line[m] && b[m + 1] == line[m + 1]);
        } else {
            assert(b[m + 1] == CR);
        }
    }
    lemma_find_crlf_first(b, line.len() as int);
    // the command and the line read back
    assert(b.take(cmd.len() as int) =~= cmd);
    assert(b.subrange(cmd.len() as int + 1, line.len() as int) =~= join);
    // tokenization
    lemma_split_join(toks);
    assert(spec_split(join) == toks);
    assert(spec_trimmed(join) == toks) by {
        assert(toks.last().len() > 0);
        assert(spec_split(join).last() == toks.last());
    }
    assert forall|i: int|
        0 <= i < spec_trimmed(join).len() implies (#[trigger] spec_trimmed(join)[i]).len()
        > 0 by {
        assert(spec_trimmed(join)[i] == toks[i]);
    }
    assert(spec_tokens(join) == Option::Some(toks));
    assert forall|i: int|
        0 <= i < spec_split(join).len() implies (#[trigger] spec_split(join)[i]).len() > 0 by {
        assert(spec_split(join)[i] == toks[i]);
    }
    assert(spec_tokens_strict(join) == Option::Some(toks));
}

/// The first CRLF pair, characterized by position.
proof fn lemma_find_crlf_first(b: Seq<u8>, j: int)
    requires
        0 <= j,
        j + 2 <= b.len(),
        b[j] == CR,
        b[j + 1] == LF,
        forall|m: int| 0 <= m < j ==> !((#[trigger] b[m]) == CR && b[m + 1] == LF),
    ensures
        spec_find_crlf(b, 0) == Option::Some(j),
{
    lemma_find_crlf_first_from(b, 0, j);
}

proof fn lemma_find_crlf_first_from(b: Seq<u8>, i: int, j: int)
    requires
        0 <= i <= j,
        j + 2 <= b.len(),
        b[j] == CR,
        b[j + 1] == LF,
        forall|m: int| i <= m < j ==> !((#[trigger] b[m]) == CR && b[m + 1] == LF),
    ensures
        spec_find_crlf(b, i) == Option::Some(j),
    decreases j - i,
{
    if i < j {
        lemma_find_crlf_first_from(b, i + 1, j);
    }
}

/// The decimal digits of `n` denote `n`, are digits, and hold neither space
/// nor carriage return nor line feed.
pub proof fn lemma_udec_value(n: int)
    requires
        n >= 0,
    ensures
        spec_is_digits(spec_udec(n)),
        spec_digits_val(spec_udec(n)) == n,
        no_sp(spec_udec(n)),
        no_crlf(spec_udec(n)),
        spec_udec(n).len() > 0,
    decreases n,
{
    if n < 10 {
        assert(spec_udec(n) =~= seq![(48 + n) as u8]);
        assert(spec_udec(n).drop_last() =~= Seq::<u8>::empty());
        assert(spec_digits_val(Seq::<u8>::empty()) == 0);
        assert(spec_udec(n).last() == (48 + n) as u8);
        assert(spec_digits_val(spec_udec(n)) == n);
    } else {
        lemma_udec_value(n / 10);
        let pre = spec_udec(n / 10);
        let d = (48 + n % 10) as u8;
        assert(spec_udec(n) == pre + seq![d]);
        assert(spec_udec(n).drop_last() =~= pre);
        assert(spec_udec(n).last() == d);
        assert(spec_digits_val(spec_udec(n)) == spec_digits_val(pre) * 10 + (d - 48));
        assert(spec_digits_val(spec_udec(n)) == (n / 10) * 10 + n % 10);
        assert forall|i: int|
            0 <= i < spec_udec(n).len() implies 48 <= #[trigger] spec_udec(n)[i] <= 57 by {
            if i < pre.len() {
                assert(spec_udec(n)[i] == pre[i]);
            }
        }
        assert forall|i: int| 0 <= i < spec_udec(n).len() implies spec_udec(n)[i] != SP by {
            assert(48 <= spec_udec(n)[i] <= 57);
        }
        assert forall|i: int|
            0 <= i < spec_udec(n).len() - 1 implies !((#[trigger] spec_udec(n)[i]) == CR
            && spec_udec(n)[i + 1] == LF) by {
            assert(48 <= spec_udec(n)[i] <= 57);
        }
    }
}

/// A parse of the decimal digits of a value below the bound yields it back.
pub proof fn lemma_udec_parses_u32(n: int)
    requires
        0 <= n <= u32::MAX,
    ensures
        spec_parse_u32(spec_udec(n)) == Option::Some(n as u32),
{
    lemma_udec_value(n);
}

/// Likewise for 64-bit values.
pub proof fn lemma_udec_parses_u64(n: int)
    requires
        0 <= n <= u64::MAX,
    ensures
        spec_parse_u64(spec_udec(n)) == Option::Some(n as u64),
{
    lemma_udec_value(n);
}

/// A key cut from a request line: nonempty, within the length limit, free of
/// spaces and CRLF pairs, and not ending in a carriage return followed by
/// nothing — exactly what the grammar can produce and reparse.
pub open spec fn key_ok(k: Seq<u8>) -> bool {
    1 <= k.len() <= MAX_KEY_LEN && no_sp(k) && no_crlf(k)
}

/// The `expiry` wire field that denotes `ttl` under `tt` at `now_unix`.
pub open spec fn spec_expiry_for(ttl: Option<u32>, tt: TimeType, now_unix: u32) -> int {
    match tt {
        TimeType::Unix => ttl->0 + now_unix,
        TimeType::Memcache => match ttl {
            Option::None => 0,
            Option::Some(t) => if t == 0 {
                now_unix as int
            } else if t < THIRTY_DAYS_SECS {
                t as int
            } else {
                t + now_unix
            },
        },
    }
}

/// Whether `ttl` can be written as an expiry field under `tt` at `now_unix`
/// and read back unchanged.
pub open spec fn ttl_ok(ttl: Option<u32>, tt: TimeType, now_unix: u32) -> bool {
    match tt {
        TimeType::Unix => ttl is Some && ttl->0 + now_unix <= u32::MAX,
        TimeType::Memcache => match ttl {
            Option::None => true,
            Option::Some(t) => if t == 0 {
                now_unix >= THIRTY_DAYS_SECS
            } else if t < THIRTY_DAYS_SECS {
                true
            } else {
                t + now_unix <= u32::MAX
            },
        },
    }
}

/// Writing `ttl` out and reading it back is the identity.
pub proof fn lemma_ttl_roundtrip(ttl: Option<u32>, tt: TimeType, now_unix: u32)
    requires
        ttl_ok(ttl, tt, now_unix),
    ensures
        0 <= spec_expiry_for(ttl, tt, now_unix) <= u32::MAX,
        spec_ttl_from(spec_expiry_for(ttl, tt, now_unix) as u32, tt, now_unix) == ttl,
{
}

/// Whether a write entry can be serialized and reparsed under `tt` at
/// `now_unix`: a clean key, a representable TTL, and (for `cas`) a counter.
pub open spec fn entry_ok(e: EntrySpec, tt: TimeType, now_unix: u32) -> bool {
    &&& key_ok(e.key)
    &&& ttl_ok(e.ttl, tt, now_unix)
}

/// Whether a request can be serialized and reparsed: clean keys within the
/// limits, representable TTLs, value sizes within `max_value_size`, and the
/// CAS field present exactly on `cas` requests.
pub open spec fn request_ok(r: RequestSpec, max_value_size: int, tt: TimeType, now_unix: u32)
    -> bool {
    match r {
        RequestSpec::Get { keys } => 1 <= keys.len() <= MAX_BATCH_SIZE && (forall|i: int|
            0 <= i < keys.len() ==> key_ok(#[trigger] keys[i])),
        RequestSpec::Gets { keys } => 1 <= keys.len() <= MAX_BATCH_SIZE && (forall|i: int|
            0 <= i < keys.len() ==> key_ok(#[trigger] keys[i])),
        RequestSpec::SetCmd { entry, .. } => entry_ok(entry, tt, now_unix) && entry.cas is None
            && entry.value.len() <= max_value_size,
        RequestSpec::Add { entry, .. } => entry_ok(entry, tt, now_unix) && entry.cas is None
            && entry.value.len() <= max_value_size,
        RequestSpec::Replace { entry, .. } => entry_ok(entry, tt, now_unix) && entry.cas is None
            && entry.value.len() <= max_value_size,
        RequestSpec::Cas { entry, .. } => entry_ok(entry, tt, now_unix) && entry.cas is Some
            && entry.value.len() <= max_value_size,
        RequestSpec::Delete { key, .. } => key_ok(key),
        RequestSpec::Quit => true,
    }
}

/// The command token of a request.
pub open spec fn spec_cmd_lit(r: RequestSpec) -> Seq<u8> {
    match r {
        RequestSpec::Get { .. } => lit_get(),
        RequestSpec::Gets { .. } => lit_gets(),
        RequestSpec::SetCmd { .. } => lit_set(),
        RequestSpec::Add { .. } => lit_add(),
        RequestSpec::Replace { .. } => lit_replace(),
        RequestSpec::Cas { .. } => lit_cas(),
        RequestSpec::Delete { .. } => lit_delete(),
        RequestSpec::Quit => lit_quit(),
    }
}

/// The tokens after the command on the request line.
pub open spec fn spec_line_tokens(r: RequestSpec, tt: TimeType, now_unix: u32) -> Seq<Seq<u8>> {
    match r {
        RequestSpec::Get { keys } => keys,
        RequestSpec::Gets { keys } => keys,
        RequestSpec::SetCmd { entry, noreply } => spec_write_tokens(
            entry,
            noreply,
            false,
            tt,
            now_unix,
        ),
        RequestSpec::Add { entry, noreply } => spec_write_tokens(
            entry,
            noreply,
            false,
            tt,
            now_unix,
        ),
        RequestSpec::Replace { entry, noreply } => spec_write_tokens(
            entry,
            noreply,
            false,
            tt,
            now_unix,
        ),
        RequestSpec::Cas { entry, noreply } => spec_write_tokens(
            entry,
            noreply,
            true,
            tt,
            now_unix,
        ),
        RequestSpec::Delete { key, noreply } => if noreply {
            seq![key, lit_noreply()]
        } else {
            seq![key]
        },
        RequestSpec::Quit => Seq::empty(),
    }
}

/// The field tokens of a write request line.
pub open spec fn spec_write_tokens(
    e: EntrySpec,
    noreply: bool,
    is_cas: bool,
    tt: TimeType,
    now_unix: u32,
) -> Seq<Seq<u8>> {
    let base = seq![
        e.key,
        spec_udec(e.flags as int),
        spec_udec(spec_expiry_for(e.ttl, tt, now_unix)),
        spec_udec(e.value.len() as int),
    ] + (if is_cas {
        seq![spec_udec(e.cas->0 as int)]
    } else {
        Seq::<Seq<u8>>::empty()
    });
    if noreply {
        base + seq![lit_noreply()]
    } else {
        base
    }
}

/// The bytes after the request line: the value block of a write, nothing for
/// the other requests.
pub open spec fn spec_body(r: RequestSpec) -> Seq<u8> {
    match r {
        RequestSpec::SetCmd { entry, .. } => entry.value + lit_crlf(),
        RequestSpec::Add { entry, .. } => entry.value + lit_crlf(),
        RequestSpec::Replace { entry, .. } => entry.value + lit_crlf(),
        RequestSpec::Cas { entry, .. } => entry.value + lit_crlf(),
        _ => Seq::empty(),
    }
}

/// The canonical wire form of a request. A `quit` is its bare line; every
/// other request is its command, a space, its space-joined tokens, CRLF, and
/// (for writes) the value block.
pub open spec fn spec_serialize(r: RequestSpec, tt: TimeType, now_unix: u32) -> Seq<u8> {
    if r is Quit {
        lit_quit() + lit_crlf()
    } else {
        spec_cmd_lit(r) + seq![SP] + spec_join(spec_line_tokens(r, tt, now_unix)) + lit_crlf()
            + spec_body(r)
    }
}

/// A command literal is nonempty and free of spaces and CRLF pairs.
proof fn lemma_cmd_lit_clean(r: RequestSpec)
    ensures
        spec_cmd_lit(r).len() > 0,
        no_sp(spec_cmd_lit(r)),
        no_crlf(spec_cmd_lit(r)),
{
    let c = spec_cmd_lit(r);
    assert forall|i: int| 0 <= i < c.len() implies c[i] != SP by {
        assert(c[i] == spec_cmd_lit(r)[i]);
    }
    assert forall|i: int| 0 <= i < c.len() - 1 implies !((#[trigger] c[i]) == CR && c[i + 1]
        == LF) by {
    }
}

/// The `noreply` literal is a clean token.
proof fn lemma_noreply_clean()
    ensures
        lit_noreply().len() > 0,
        no_sp(lit_noreply()),
        no_crlf(lit_noreply()),
{
    assert forall|i: int| 0 <= i < lit_noreply().len() implies lit_noreply()[i] != SP by {
    }
    assert forall|i: int|
        0 <= i < lit_noreply().len() - 1 implies !((#[trigger] lit_noreply()[i]) == CR
        && lit_noreply()[i + 1] == LF) by {
    }
}

/// The field tokens of a write request line are clean, and read back field
/// by field.
proof fn lemma_write_tokens_shape(
    e: EntrySpec,
    noreply: bool,
    is_cas: bool,
    tt: TimeType,
    now_unix: u32,
)
    requires
        entry_ok(e, tt, now_unix),
        is_cas ==> e.cas is Some,
        e.value.len() <= u64::MAX,
    ensures
        ({
            let ts = spec_write_tokens(e, noreply, is_cas, tt, now_unix);
            let n_req: int = if is_cas {
                5
            } else {
                4
            };
            &&& tokens_ok(ts)
            &&& ts.len() == n_req + (if noreply {
                1int
            } else {
                0
            })
            &&& ts[0] == e.key
            &&& ts[1] == spec_udec(e.flags as int)
            &&& ts[2] == spec_udec(spec_expiry_for(e.ttl, tt, now_unix))
            &&& ts[3] == spec_udec(e.value.len() as int)
            &&& (is_cas ==> ts[4] == spec_udec(e.cas->0 as int))
            &&& (noreply ==> ts.last() == lit_noreply())
        }),
{
    lemma_ttl_roundtrip(e.ttl, tt, now_unix);
    lemma_udec_value(e.flags as int);
    lemma_udec_value(spec_expiry_for(e.ttl, tt, now_unix));
    lemma_udec_value(e.value.len() as int);
    if is_cas {
        lemma_udec_value(e.cas->0 as int);
    }
    lemma_noreply_clean();
    let ts = spec_write_tokens(e, noreply, is_cas, tt, now_unix);
    assert forall|i: int|
        0 <= i < ts.len() implies (#[trigger] ts[i]).len() > 0 && no_sp(ts[i]) && no_crlf(
        ts[i],
    ) by {
        if i == 0 {
            assert(ts[0] == e.key);
        } else if i == 1 {
            assert(ts[1] == spec_udec(e.flags as int));
        } else if i == 2 {
            assert(ts[2] == spec_udec(spec_expiry_for(e.ttl, tt, now_unix)));
        } else if i == 3 {
            assert(ts[3] == spec_udec(e.value.len() as int));
        } else if is_cas && i == 4 {
            assert(ts[4] == spec_udec(e.cas->0 as int));
        } else {
            assert(ts[i] == lit_noreply());
        }
    }
}

/// Parsing the canonical wire form of a well-formed request yields exactly
/// that request, consuming the whole buffer. This is the byte-level round
/// trip: serialize, then parse, is the identity, and the consumed count is
/// the serialized length.
#[verifier::rlimit(100)]
pub proof fn lemma_parse_serialize_roundtrip(
    r: RequestSpec,
    max_value_size: int,
    tt: TimeType,
    now_unix: u32,
)
    requires
        request_ok(r, max_value_size, tt, now_unix),
        value_len_fits(r),
    ensures
        ({
            let b = spec_serialize(r, tt, now_unix);
            spec_parse(b, max_value_size, tt, now_unix) == Result::<
                (RequestSpec, int),
                ParseError,
            >::Ok((r, b.len() as int))
        }),
{
    if r is Quit {
        lemma_quit_roundtrip(r, max_value_size, tt, now_unix);
    } else {
        lemma_non_quit_roundtrip(r, max_value_size, tt, now_unix);
    }
}

/// The round trip of every request other than `quit`.
proof fn lemma_non_quit_roundtrip(
    r: RequestSpec,
    max_value_size: int,
    tt: TimeType,
    now_unix: u32,
)
    requires
        request_ok(r, max_value_size, tt, now_unix),
        value_len_fits(r),
        !(r is Quit),
    ensures
        ({
            let b = spec_serialize(r, tt, now_unix);
            spec_parse(b, max_value_size, tt, now_unix) == Result::<
                (RequestSpec, int),
                ParseError,
            >::Ok((r, b.len() as int))
        }),
{
    let cmd = spec_cmd_lit(r);
    let toks = spec_line_tokens(r, tt, now_unix);
    let body = spec_body(r);
    let b = spec_serialize(r, tt, now_unix);
    let line = cmd + seq![SP] + spec_join(toks);
    assert(b =~= line + lit_crlf() + body);
    lemma_cmd_lit_clean(r);
    // the line tokens are clean in every case
    match r {
        RequestSpec::Get { keys } => {
            assert(tokens_ok(toks)) by {
                assert forall|i: int|
                    0 <= i < toks.len() implies (#[trigger] toks[i]).len() > 0 && no_sp(toks[i])
                    && no_crlf(toks[i]) by {
                    assert(key_ok(keys[i]));
                }
            }
        },
        RequestSpec::Gets { keys } => {
            assert(tokens_ok(toks)) by {
                assert forall|i: int|
                    0 <= i < toks.len() implies (#[trigger] toks[i]).len() > 0 && no_sp(toks[i])
                    && no_crlf(toks[i]) by {
                    assert(key_ok(keys[i]));
                }
            }
        },
        RequestSpec::SetCmd { entry, noreply } => {
            lemma_write_tokens_shape(entry, noreply, false, tt, now_unix);
        },
        RequestSpec::Add { entry, noreply } => {
            lemma_write_tokens_shape(entry, noreply, false, tt, now_unix);
        },
        RequestSpec::Replace { entry, noreply } => {
            lemma_write_tokens_shape(entry, noreply, false, tt, now_unix);
        },
        RequestSpec::Cas { entry, noreply } => {
            lemma_write_tokens_shape(entry, noreply, true, tt, now_unix);
        },
        RequestSpec::Delete { key, noreply } => {
            lemma_noreply_clean();
            assert(tokens_ok(toks)) by {
                assert forall|i: int|
                    0 <= i < toks.len() implies (#[trigger] toks[i]).len() > 0 && no_sp(toks[i])
                    && no_crlf(toks[i]) by {
                    if i == 0 {
                        assert(toks[0] == key);
                    } else {
                        assert(toks[i] == lit_noreply());
                    }
                }
            }
        },
        RequestSpec::Quit => {
            assert(false);
        },
    }
    assert(toks.len() >= 1);
    lemma_line_shape(cmd, toks, body);
    let sp = cmd.len() as int;
    let le = line.len() as int;
    // the command is recognized
    assert(spec_parse_command(b) == Result::<MemcacheCommand, ParseError>::Ok(
        spec_req_command(r),
    )) by {
        assert(b.take(sp) == cmd);
        assert(spec_command_from(cmd) == Option::Some(spec_req_command(r)));
    }
    // and the per-command parse yields the request back
    match r {
        RequestSpec::Get { keys } => {
            assert(spec_parse_get(b, false) == Result::<(RequestSpec, int), ParseError>::Ok(
                (r, b.len() as int),
            )) by {
                assert(spec_tokens(b.subrange(sp + 1, le)) == Option::Some(keys));
                assert(forall|i: int|
                    0 <= i < keys.len() ==> (#[trigger] keys[i]).len() <= MAX_KEY_LEN);
                assert(b.len() == le + 2);
            }
        },
        RequestSpec::Gets { keys } => {
            assert(spec_parse_get(b, true) == Result::<(RequestSpec, int), ParseError>::Ok(
                (r, b.len() as int),
            )) by {
                assert(spec_tokens(b.subrange(sp + 1, le)) == Option::Some(keys));
                assert(forall|i: int|
                    0 <= i < keys.len() ==> (#[trigger] keys[i]).len() <= MAX_KEY_LEN);
                assert(b.len() == le + 2);
            }
        },
        RequestSpec::SetCmd { entry, noreply } => {
            lemma_write_case(r, entry, noreply, false, max_value_size, tt, now_unix);
        },
        RequestSpec::Add { entry, noreply } => {
            lemma_write_case(r, entry, noreply, false, max_value_size, tt, now_unix);
        },
        RequestSpec::Replace { entry, noreply } => {
            lemma_write_case(r, entry, noreply, false, max_value_size, tt, now_unix);
        },
        RequestSpec::Cas { entry, noreply } => {
            lemma_write_case(r, entry, noreply, true, max_value_size, tt, now_unix);
        },
        RequestSpec::Delete { key, noreply } => {
            assert(spec_parse_delete(b) == Result::<(RequestSpec, int), ParseError>::Ok(
                (r, b.len() as int),
            )) by {
                assert(spec_tokens_strict(b.subrange(sp + 1, le)) == Option::Some(toks));
                if noreply {
                    assert(toks.len() == 2 && toks[1] == lit_noreply());
                } else {
                    assert(toks.len() == 1);
                }
                assert(toks[0] == key);
                assert(b.len() == le + 2);
            }
        },
        RequestSpec::Quit => {
            assert(false);
        },
    }
}

/// The round trip of the bare `quit` line.
proof fn lemma_quit_roundtrip(r: RequestSpec, max_value_size: int, tt: TimeType, now_unix: u32)
    requires
        r is Quit,
    ensures
        ({
            let b = spec_serialize(r, tt, now_unix);
            spec_parse(b, max_value_size, tt, now_unix) == Result::<
                (RequestSpec, int),
                ParseError,
            >::Ok((r, b.len() as int))
        }),
{
    let b = spec_serialize(r, tt, now_unix);
    assert(b == lit_quit() + lit_crlf());
    assert(b.len() == 6);
    assert forall|m: int| 0 <= m < b.len() implies b[m] != SP by {
        if m < 4 {
            assert(b[m] == lit_quit()[m]);
        } else {
            assert(b[m] == lit_crlf()[m - 4]);
        }
    }
    lemma_find_byte_none(b, SP, 0);
    assert(b[4] == CR && b[5] == LF);
    assert forall|m: int| 0 <= m < 4 implies !((#[trigger] b[m]) == CR && b[m + 1] == LF) by {
        assert(b[m] == lit_quit()[m]);
    }
    lemma_find_crlf_first(b, 4);
    assert(b.take(4) =~= lit_quit());
    assert(spec_parse_command(b) == Result::<MemcacheCommand, ParseError>::Ok(
        MemcacheCommand::Quit,
    ));
}

/// Machine-size bound used by the round trip: a value's length must fit the
/// 64-bit byte count field.
pub open spec fn value_len_fits(r: RequestSpec) -> bool {
    match r {
        RequestSpec::SetCmd { entry, .. } => entry.value.len() <= u64::MAX,
        RequestSpec::Add { entry, .. } => entry.value.len() <= u64::MAX,
        RequestSpec::Replace { entry, .. } => entry.value.len() <= u64::MAX,
        RequestSpec::Cas { entry, .. } => entry.value.len() <= u64::MAX,
        _ => true,
    }
}

/// The command of a request.
pub open spec fn spec_req_command(r: RequestSpec) -> MemcacheCommand {
    match r {
        RequestSpec::Get { .. } => MemcacheCommand::Get,
        RequestSpec::Gets { .. } => MemcacheCommand::Gets,
        RequestSpec::SetCmd { .. } => MemcacheCommand::SetCmd,
        RequestSpec::Add { .. } => MemcacheCommand::Add,
        RequestSpec::Replace { .. } => MemcacheCommand::Replace,
        RequestSpec::Cas { .. } => MemcacheCommand::Cas,
        RequestSpec::Delete { .. } => MemcacheCommand::Delete,
        RequestSpec::Quit => MemcacheCommand::Quit,
    }
}

/// The write-request half of the round trip.
#[verifier::rlimit(100)]
proof fn lemma_write_case(
    r: RequestSpec,
    e: EntrySpec,
    noreply: bool,
    is_cas: bool,
    max_value_size: int,
    tt: TimeType,
    now_unix: u32,
)
    requires
        request_ok(r, max_value_size, tt, now_unix),
        value_len_fits(r),
        spec_line_tokens(r, tt, now_unix) == spec_write_tokens(e, noreply, is_cas, tt, now_unix),
        spec_body(r) == e.value + lit_crlf(),
        entry_ok(e, tt, now_unix),
        is_cas ==> e.cas is Some,
        !is_cas ==> e.cas is None,
        e.value.len() <= u64::MAX,
        e.value.len() <= max_value_size,
    ensures
        spec_parse_write(spec_serialize(r, tt, now_unix), is_cas, max_value_size, tt, now_unix)
            == Result::<(EntrySpec, bool, int), ParseError>::Ok(
            (e, noreply, spec_serialize(r, tt, now_unix).len() as int),
        ),
{
    let cmd = spec_cmd_lit(r);
    let toks = spec_line_tokens(r, tt, now_unix);
    let body = spec_body(r);
    let b = spec_serialize(r, tt, now_unix);
    let line = cmd + seq![SP] + spec_join(toks);
    assert(b =~= line + lit_crlf() + body);
    lemma_cmd_lit_clean(r);
    lemma_write_tokens_shape(e, noreply, is_cas, tt, now_unix);
    lemma_line_shape(cmd, toks, body);
    let sp = cmd.len() as int;
    let le = line.len() as int;
    assert(spec_tokens(b.subrange(sp + 1, le)) == Option::Some(toks));
    let n_req: int = if is_cas {
        5
    } else {
        4
    };
    lemma_ttl_roundtrip(e.ttl, tt, now_unix);
    lemma_udec_parses_u32(e.flags as int);
    lemma_udec_parses_u32(spec_expiry_for(e.ttl, tt, now_unix));
    lemma_udec_parses_u64(e.value.len() as int);
    if is_cas {
        lemma_udec_parses_u64(e.cas->0 as int);
    }
    // the byte count and value block line up
    assert(b.len() == le + 2 + e.value.len() + 2);
    assert(b.subrange(le + 2, le + 2 + e.value.len()) =~= e.value);
    assert(spec_ttl_from(spec_expiry_for(e.ttl, tt, now_unix) as u32, tt, now_unix) == e.ttl);
    let f = spec_parse_write(b, is_cas, max_value_size, tt, now_unix);
    assert(f == Result::<(EntrySpec, bool, int), ParseError>::Ok(
        (e, noreply, b.len() as int),
    )) by {
        assert(toks[0] == e.key && e.key.len() <= MAX_KEY_LEN);
        if noreply {
            assert(toks.len() == n_req + 1 && toks.last() == lit_noreply());
        } else {
            assert(toks.len() == n_req);
        }
        assert(spec_parse_u32(toks[1]) == Option::Some(e.flags));
        assert(spec_parse_u32(toks[2]) == Option::Some(
            spec_expiry_for(e.ttl, tt, now_unix) as u32,
        ));
        assert(spec_parse_u64(toks[3]) == Option::Some(e.value.len() as u64));
        if is_cas {
            assert(spec_parse_u64(toks[4]) == Option::Some(e.cas->0));
        }
    }
}

} // verus!
