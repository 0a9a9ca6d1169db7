//! Typed values of the text Memcache protocol.
//!
//! The parser in this module consumes bytes from a connection's read buffer
//! and yields a typed request together with the number of bytes consumed, or
//! `Incomplete` when the buffer does not yet hold a full framed request, or
//! `Invalid` when the request breaks the grammar or a size limit.

use vstd::prelude::*;

verus! {

/// Longest accepted command token, in bytes.
pub const MAX_COMMAND_LEN: usize = 16;
/// Longest accepted key, in bytes.
pub const MAX_KEY_LEN: usize = 250;
/// Largest accepted number of keys in one `get`/`gets` request.
pub const MAX_BATCH_SIZE: usize = 1024;
/// Seconds in 30 days: the threshold above which a `Memcache`-mode expiry is
/// read as an absolute unix time.
pub const THIRTY_DAYS_SECS: u32 = 2592000;

/// How the `expiry` field of a write request is interpreted.
#[derive(Clone, Copy, PartialEq, Eq, Structural, Debug)]
pub enum TimeType {
    /// `expiry` is an absolute unix time in seconds.
    Unix,
    /// `expiry` below 30 days is relative seconds, otherwise absolute unix
    /// time; 0 means never.
    Memcache,
}

/// Why a buffer failed to parse.
#[derive(Clone, Copy, PartialEq, Eq, Structural, Debug)]
pub enum ParseError {
    /// The buffer does not yet hold a full request; read more and retry.
    Incomplete,
    /// The buffer holds a malformed or over-limit request.
    Invalid,
}

/// The command token of a request.
#[derive(Clone, Copy, PartialEq, Eq, Structural, Debug)]
pub enum MemcacheCommand {
    Get,
    Gets,
    SetCmd,
    Add,
    Replace,
    Cas,
    Delete,
    Quit,
}

/// One key-value pair together with its write metadata.
pub struct MemcacheEntry {
    /// The key bytes.
    pub key: Vec<u8>,
    /// The value bytes.
    pub value: Vec<u8>,
    /// Time to live in seconds; `None` and `Some(0)` mean never expire.
    pub ttl: Option<u32>,
    /// Opaque client flags, echoed back on reads.
    pub flags: u32,
    /// The CAS counter of a `cas` request; `None` for other writes.
    pub cas: Option<u64>,
}

/// A parsed request.
pub enum MemcacheRequest {
    /// Read the values of the given keys.
    Get { keys: Vec<Vec<u8>> },
    /// Like `Get`, additionally reporting each hit's CAS counter.
    Gets { keys: Vec<Vec<u8>> },
    /// Unconditionally store the entry.
    SetCmd { entry: MemcacheEntry, noreply: bool },
    /// Store the entry only if the key is absent.
    Add { entry: MemcacheEntry, noreply: bool },
    /// Store the entry only if the key is present.
    Replace { entry: MemcacheEntry, noreply: bool },
    /// Store the entry only if the key's CAS counter equals the given one.
    Cas { entry: MemcacheEntry, noreply: bool },
    /// Remove the key.
    Delete { key: Vec<u8>, noreply: bool },
    /// End the session; the connection closes after any pending replies.
    Quit,
}

/// Carriage return.
pub const CR: u8 = 13;
/// Line feed.
pub const LF: u8 = 10;
/// Space: the field separator of the text protocol.
pub const SP: u8 = 32;

/// Index of the first CRLF pair of `b` at or after position `i`, if any.
pub open spec fn spec_find_crlf(b: Seq<u8>, i: int) -> Option<int>
    decreases b.len() - i when i >= 0
{
    if i + 2 > b.len() {
        Option::None
    } else if b[i] == CR && b[i + 1] == LF {
        Option::Some(i)
    } else {
        spec_find_crlf(b, i + 1)
    }
}

/// Index of the first occurrence of byte `c` in `b` at or after position
/// `i`, if any.
pub open spec fn spec_find_byte(b: Seq<u8>, c: u8, i: int) -> Option<int>
    decreases b.len() - i when i >= 0
{
    if i + 1 > b.len() {
        Option::None
    } else if b[i] == c {
        Option::Some(i)
    } else {
        spec_find_byte(b, c, i + 1)
    }
}

/// A found byte is in range, matches, and nothing before it matches.
pub proof fn lemma_find_byte_props(b: Seq<u8>, c: u8, i: int)
    requires
        0 <= i,
    ensures
        match spec_find_byte(b, c, i) {
            Option::Some(j) => i <= j < b.len() && b[j] == c && forall|m: int|
                i <= m < j ==> b[m] != c,
            Option::None => forall|m: int| i <= m < b.len() ==> b[m] != c,
        },
    decreases b.len() - i,
{
    if i + 1 > b.len() {
    } else if b[i] == c {
    } else {
        lemma_find_byte_props(b, c, i + 1);
    }
}

/// The first occurrence characterizes `spec_find_byte`.
pub proof fn lemma_find_byte_first(b: Seq<u8>, c: u8, i: int, j: int)
    requires
        0 <= i <= j < b.len(),
        b[j] == c,
        forall|m: int| i <= m < j ==> b[m] != c,
    ensures
        spec_find_byte(b, c, i) == Option::Some(j),
    decreases j - i,
{
    if i < j {
        lemma_find_byte_first(b, c, i + 1, j);
    }
}

/// Absence of the byte characterizes a `None` result.
pub proof fn lemma_find_byte_none(b: Seq<u8>, c: u8, i: int)
    requires
        0 <= i,
        forall|m: int| i <= m < b.len() ==> b[m] != c,
    ensures
        spec_find_byte(b, c, i) is None,
    decreases b.len() - i,
{
    if i + 1 <= b.len() {
        lemma_find_byte_none(b, c, i + 1);
    }
}

/// Find the first CRLF pair at or after `from`.
pub fn find_crlf(b: &[u8], from: usize) -> (r: Option<usize>)
    ensures
        match r {
            Option::Some(j) => spec_find_crlf(b@, from as int) == Option::Some(j as int),
            Option::None => spec_find_crlf(b@, from as int) is None,
        },
{
    let n = b.len();
    let mut i = from;
    loop
        invariant
            from <= i,
            n == b@.len(),
            spec_find_crlf(b@, from as int) == spec_find_crlf(b@, i as int),
        decreases n + 2 - i,
    {
        if n < 2 || i > n - 2 {
            return None;
        }
        if b[i] == CR && b[i + 1] == LF {
            return Some(i);
        }
        i = i + 1;
    }
}

/// Find the first occurrence of `c` at or after `from`.
pub fn find_byte(b: &[u8], c: u8, from: usize) -> (r: Option<usize>)
    ensures
        match r {
            Option::Some(j) => spec_find_byte(b@, c, from as int) == Option::Some(j as int),
            Option::None => spec_find_byte(b@, c, from as int) is None,
        },
{
    let n = b.len();
    let mut i = from;
    loop
        invariant
            from <= i,
            n == b@.len(),
            spec_find_byte(b@, c, from as int) == spec_find_byte(b@, c, i as int),
        decreases n + 1 - i,
    {
        if i >= n {
            return None;
        }
        if b[i] == c {
            return Some(i);
        }
        i = i + 1;
    }
}

/// Whether `s` is a nonempty string of ASCII digits.
pub open spec fn spec_is_digits(s: Seq<u8>) -> bool {
    s.len() > 0 && forall|i: int| 0 <= i < s.len() ==> 48 <= #[trigger] s[i] <= 57
}

/// The numeric value of a string of ASCII digits.
pub open spec fn spec_digits_val(s: Seq<u8>) -> int
    decreases s.len(),
{
    if s.len() == 0 {
        0
    } else {
        spec_digits_val(s.drop_last()) * 10 + (s.last() - 48)
    }
}

/// The value of a digit string only grows as digits are appended.
pub proof fn lemma_digits_val_monotone(s: Seq<u8>, i: int, j: int)
    requires
        spec_is_digits(s),
        0 <= i <= j <= s.len(),
    ensures
        spec_digits_val(s.take(i)) <= spec_digits_val(s.take(j)),
    decreases j - i,
{
    lemma_digits_val_nonneg(s.take(i));
    if i < j {
        lemma_digits_val_monotone(s, i + 1, j);
        let t1 = s.take(i + 1);
        assert(t1.drop_last() =~= s.take(i));
        lemma_digits_val_nonneg(s.take(i));
        assert(spec_digits_val(t1) == spec_digits_val(s.take(i)) * 10 + (s[i] - 48));
        assert(spec_digits_val(s.take(i)) * 10 >= spec_digits_val(s.take(i)));
        assert(48 <= s[i] <= 57);
    }
}

/// The value of a digit string is never negative.
pub proof fn lemma_digits_val_nonneg(s: Seq<u8>)
    ensures
        spec_digits_val(s) >= 0 || !spec_is_digits_weak(s),
        spec_is_digits_weak(s) ==> spec_digits_val(s) >= 0,
    decreases s.len(),
{
    if s.len() > 0 {
        lemma_digits_val_nonneg(s.drop_last());
        assert(spec_is_digits_weak(s) ==> spec_is_digits_weak(s.drop_last())) by {
            if spec_is_digits_weak(s) {
                assert forall|i: int|
                    0 <= i < s.drop_last().len() implies 48 <= #[trigger] s.drop_last()[i]
                    <= 57 by {
                    assert(s.drop_last()[i] == s[i]);
                }
            }
        }
    }
}

/// Like `spec_is_digits` but allowing the empty string.
pub open spec fn spec_is_digits_weak(s: Seq<u8>) -> bool {
    forall|i: int| 0 <= i < s.len() ==> 48 <= #[trigger] s[i] <= 57
}

/// The `u64` denoted by a digit string, or `None` when the string is empty,
/// holds a non-digit, or overflows.
pub open spec fn spec_parse_u64(s: Seq<u8>) -> Option<u64> {
    if spec_is_digits(s) && spec_digits_val(s) <= u64::MAX {
        Option::Some(spec_digits_val(s) as u64)
    } else {
        Option::None
    }
}

/// The `u32` denoted by a digit string, with the same failure cases.
pub open spec fn spec_parse_u32(s: Seq<u8>) -> Option<u32> {
    if spec_is_digits(s) && spec_digits_val(s) <= u32::MAX {
        Option::Some(spec_digits_val(s) as u32)
    } else {
        Option::None
    }
}

/// Parse a decimal `u64` from `t`.
pub fn parse_u64(t: &[u8]) -> (r: Option<u64>)
    ensures
        r == spec_parse_u64(t@),
{
    let n = t.len();
    if n == 0 {
        return None;
    }
    let mut acc: u64 = 0;
    let mut i: usize = 0;
    while i < n
        invariant
            n == t@.len(),
            0 < n,
            i <= n,
            spec_is_digits_weak(t@.take(i as int)),
            acc == spec_digits_val(t@.take(i as int)),
        decreases n - i,
    {
        let c = t[i];
        if c < 48 || c > 57 {
            proof {
                assert(!spec_is_digits(t@));
            }
            return None;
        }
        let d: u64 = (c - 48) as u64;
        if acc > (u64::MAX - d) / 10 {
            proof {
                let t1 = t@.take(i + 1);
                assert(t1.drop_last() =~= t@.take(i as int));
                assert(spec_digits_val(t1) == acc * 10 + d);
                assert(spec_digits_val(t1) > u64::MAX);
                if spec_is_digits(t@) {
                    lemma_digits_val_monotone(t@, i + 1, n as int);
                    assert(t@.take(n as int) =~= t@);
                }
            }
            return None;
        }
        proof {
            let t1 = t@.take(i + 1);
            assert(t1.drop_last() =~= t@.take(i as int));
            assert(t1.last() == t@[i as int]);
        }
        acc = acc * 10 + d;
        i = i + 1;
    }
    proof {
        assert(t@.take(n as int) =~= t@);
        assert(spec_is_digits(t@));
    }
    Some(acc)
}

/// Parse a decimal `u32` from `t`.
pub fn parse_u32(t: &[u8]) -> (r: Option<u32>)
    ensures
        r == spec_parse_u32(t@),
{
    proof {
        lemma_digits_val_nonneg(t@);
    }
    match parse_u64(t) {
        Some(v) => {
            if v <= u32::MAX as u64 {
                Some(v as u32)
            } else {
                None
            }
        },
        None => {
            proof {
                if spec_is_digits(t@) && spec_digits_val(t@) <= u32::MAX {
                    assert(spec_digits_val(t@) <= u64::MAX);
                }
            }
            None
        },
    }
}

/// Split `line` into the pieces between single spaces; pieces may be empty.
pub open spec fn spec_split(line: Seq<u8>) -> Seq<Seq<u8>>
    decreases line.len(),
{
    match spec_find_byte(line, SP, 0) {
        Option::None => seq![line],
        Option::Some(i) => if 0 <= i < line.len() {
            seq![line.take(i)] + spec_split(line.skip(i + 1))
        } else {
            seq![line]
        },
    }
}

/// A split always yields at least one piece.
pub proof fn lemma_split_len_pos(line: Seq<u8>)
    ensures
        spec_split(line).len() >= 1,
    decreases line.len(),
{
    lemma_find_byte_props(line, SP, 0);
    match spec_find_byte(line, SP, 0) {
        Option::None => {},
        Option::Some(i) => {
            lemma_split_len_pos(line.skip(i + 1));
        },
    }
}

/// The split pieces with one trailing empty piece (from a single trailing
/// space) dropped.
pub open spec fn spec_trimmed(line: Seq<u8>) -> Seq<Seq<u8>> {
    let ts = spec_split(line);
    if ts.len() > 0 && ts.last().len() == 0 {
        ts.drop_last()
    } else {
        ts
    }
}

/// The token list of a request line: the split pieces, with one trailing
/// empty piece dropped; `None` when any other piece is empty.
pub open spec fn spec_tokens(line: Seq<u8>) -> Option<Seq<Seq<u8>>> {
    if forall|i: int|
        0 <= i < spec_trimmed(line).len() ==> (#[trigger] spec_trimmed(line)[i]).len() > 0 {
        Option::Some(spec_trimmed(line))
    } else {
        Option::None
    }
}

/// The strict token list: the split pieces, `None` when any piece (trailing
/// included) is empty.
pub open spec fn spec_tokens_strict(line: Seq<u8>) -> Option<Seq<Seq<u8>>> {
    if forall|i: int|
        0 <= i < spec_split(line).len() ==> (#[trigger] spec_split(line)[i]).len() > 0 {
        Option::Some(spec_split(line))
    } else {
        Option::None
    }
}

/// Find the first space in `b[from..end)`.
fn find_sp_in(b: &[u8], from: usize, end: usize) -> (r: Option<usize>)
    requires
        from <= end <= b@.len(),
    ensures
        match r {
            Option::Some(j) => from <= j < end && b@[j as int] == SP && forall|m: int|
                from <= m < j ==> b@[m] != SP,
            Option::None => forall|m: int| from <= m < end ==> b@[m] != SP,
        },
{
    let mut i = from;
    while i < end
        invariant
            from <= i <= end <= b@.len(),
            forall|m: int| from <= m < i ==> b@[m] != SP,
        decreases end - i,
    {
        if b[i] == SP {
            return Some(i);
        }
        i = i + 1;
    }
    None
}

/// The view of a token vector: the sequence of its byte strings.
pub open spec fn toks_view(ts: Seq<Vec<u8>>) -> Seq<Seq<u8>> {
    ts.map_values(|v: Vec<u8>| v@)
}

/// Tokenize `b[start..end)`: the pieces between single spaces, tolerating one
/// trailing space; `None` when a piece other than the trailing one is empty.
pub fn tokenize(b: &[u8], start: usize, end: usize) -> (r: Option<Vec<Vec<u8>>>)
    requires
        start <= end <= b@.len(),
    ensures
        match r {
            Option::Some(ts) => spec_tokens(b@.subrange(start as int, end as int))
                == Option::Some(toks_view(ts@)) && forall|i: int|
                0 <= i < ts@.len() ==> (#[trigger] ts@[i])@.len() > 0,
            Option::None => spec_tokens(b@.subrange(start as int, end as int)) is None,
        },
{
    let ghost sub = b@.subrange(start as int, end as int);
    let mut toks: Vec<Vec<u8>> = Vec::new();
    let mut pos = start;
    loop
        invariant
            start <= pos <= end <= b@.len(),
            sub == b@.subrange(start as int, end as int),
            forall|i: int| 0 <= i < toks@.len() ==> (#[trigger] toks@[i])@.len() > 0,
            spec_split(sub) == toks_view(toks@) + spec_split(
                b@.subrange(pos as int, end as int),
            ),
        decreases end - pos,
    {
        let ghost rem = b@.subrange(pos as int, end as int);
        match find_sp_in(b, pos, end) {
            Some(j) => {
                proof {
                    assert(rem[j - pos] == SP);
                    assert forall|m: int| 0 <= m < j - pos implies rem[m] != SP by {
                        assert(rem[m] == b@[pos + m]);
                    }
                    lemma_find_byte_first(rem, SP, 0, j - pos);
                    assert(spec_split(rem) == seq![rem.take(j - pos)] + spec_split(
                        rem.skip(j - pos + 1),
                    ));
                    assert(rem.take(j - pos) =~= b@.subrange(pos as int, j as int));
                    assert(rem.skip(j - pos + 1) =~= b@.subrange(j + 1, end as int));
                }
                if j == pos {
                    // an empty piece followed by at least one more piece:
                    // never a lone trailing space, so the line is malformed
                    proof {
                        let ts = spec_split(sub);
                        let tv = toks_view(toks@);
                        let tail = spec_split(b@.subrange(j + 1, end as int));
                        lemma_split_len_pos(b@.subrange(j + 1, end as int));
                        assert(rem.take(0) =~= Seq::<u8>::empty());
                        assert(ts =~= tv + seq![Seq::<u8>::empty()] + tail);
                        assert(ts[tv.len() as int].len() == 0);
                        assert(ts.len() >= tv.len() + 2);
                        assert(spec_trimmed(sub)[tv.len() as int].len() == 0);
                        assert(spec_tokens(sub) is None);
                    }
                    return None;
                }
                let piece = vstd::slice::slice_to_vec(vstd::slice::slice_subrange(b, pos, j));
                proof {
                    let tv1 = toks_view(toks@.push(piece));
                    assert(tv1 =~= toks_view(toks@) + seq![piece@]);
                }
                toks.push(piece);
                pos = j + 1;
            },
            None => {
                proof {
                    assert forall|m: int| 0 <= m < rem.len() implies rem[m] != SP by {
                        assert(rem[m] == b@[pos + m]);
                    }
                    lemma_find_byte_none(rem, SP, 0);
                    assert(spec_split(rem) == seq![rem]);
                }
                if pos == end {
                    // a trailing empty piece: dropped
                    proof {
                        let ts = spec_split(sub);
                        let tv = toks_view(toks@);
                        assert(rem =~= Seq::<u8>::empty());
                        assert(ts == tv + seq![Seq::<u8>::empty()]);
                        assert(ts.last().len() == 0);
                        assert(ts.drop_last() =~= tv);
                        assert(spec_trimmed(sub) == tv);
                        assert forall|i: int|
                            0 <= i < spec_trimmed(sub).len() implies (#[trigger] spec_trimmed(
                            sub,
                        )[i]).len() > 0 by {
                            assert(spec_trimmed(sub)[i] == tv[i]);
                        }
                        assert(spec_tokens(sub) == Option::Some(tv));
                    }
                    return Some(toks);
                }
                let piece = vstd::slice::slice_to_vec(vstd::slice::slice_subrange(b, pos, end));
                proof {
                    assert(piece@ =~= rem);
                }
                toks.push(piece);
                proof {
                    let ts = spec_split(sub);
                    let tv = toks_view(toks@);
                    assert(tv =~= toks_view(toks@.drop_last()) + seq![rem]);
                    assert(ts == tv);
                    assert(ts.len() > 0 && ts.last().len() > 0);
                    assert(spec_trimmed(sub) == tv);
                    assert forall|i: int|
                        0 <= i < spec_trimmed(sub).len() implies (#[trigger] spec_trimmed(
                        sub,
                    )[i]).len() > 0 by {
                        assert(spec_trimmed(sub)[i] == tv[i]);
                    }
                    assert(spec_tokens(sub) == Option::Some(tv));
                }
                return Some(toks);
            },
        }
    }
}

/// The bytes of the command token `get`.
pub open spec fn lit_get() -> Seq<u8> {
    seq![103u8, 101u8, 116u8]
}

/// The bytes of the command token `gets`.
pub open spec fn lit_gets() -> Seq<u8> {
    seq![103u8, 101u8, 116u8, 115u8]
}

/// The bytes of the command token `set`.
pub open spec fn lit_set() -> Seq<u8> {
    seq![115u8, 101u8, 116u8]
}

/// The bytes of the command token `add`.
pub open spec fn lit_add() -> Seq<u8> {
    seq![97u8, 100u8, 100u8]
}

/// The bytes of the command token `replace`.
pub open spec fn lit_replace() -> Seq<u8> {
    seq![114u8, 101u8, 112u8, 108u8, 97u8, 99u8, 101u8]
}

/// The bytes of the command token `cas`.
pub open spec fn lit_cas() -> Seq<u8> {
    seq![99u8, 97u8, 115u8]
}

/// The bytes of the command token `delete`.
pub open spec fn lit_delete() -> Seq<u8> {
    seq![100u8, 101u8, 108u8, 101u8, 116u8, 101u8]
}

/// The bytes of the command token `quit`.
pub open spec fn lit_quit() -> Seq<u8> {
    seq![113u8, 117u8, 105u8, 116u8]
}

/// The bytes of the option token `noreply`.
pub open spec fn lit_noreply() -> Seq<u8> {
    seq![110u8, 111u8, 114u8, 101u8, 112u8, 108u8, 121u8]
}

/// The command a token denotes, if any.
pub open spec fn spec_command_from(t: Seq<u8>) -> Option<MemcacheCommand> {
    if t == lit_get() {
        Option::Some(MemcacheCommand::Get)
    } else if t == lit_gets() {
        Option::Some(MemcacheCommand::Gets)
    } else if t == lit_set() {
        Option::Some(MemcacheCommand::SetCmd)
    } else if t == lit_add() {
        Option::Some(MemcacheCommand::Add)
    } else if t == lit_replace() {
        Option::Some(MemcacheCommand::Replace)
    } else if t == lit_cas() {
        Option::Some(MemcacheCommand::Cas)
    } else if t == lit_delete() {
        Option::Some(MemcacheCommand::Delete)
    } else if t == lit_quit() {
        Option::Some(MemcacheCommand::Quit)
    } else {
        Option::None
    }
}

/// Map a command token to its command.
pub fn command_from_token(t: &[u8]) -> (r: Option<MemcacheCommand>)
    ensures
        r == spec_command_from(t@),
{
    let n = t.len();
    if n == 3 {
        if t[0] == 103 && t[1] == 101 && t[2] == 116 {
            proof {
                assert(t@ =~= lit_get());
            }
            Some(MemcacheCommand::Get)
        } else if t[0] == 115 && t[1] == 101 && t[2] == 116 {
            proof {
                assert(t@ =~= lit_set());
            }
            Some(MemcacheCommand::SetCmd)
        } else if t[0] == 97 && t[1] == 100 && t[2] == 100 {
            proof {
                assert(t@ =~= lit_add());
            }
            Some(MemcacheCommand::Add)
        } else if t[0] == 99 && t[1] == 97 && t[2] == 115 {
            proof {
                assert(t@ =~= lit_cas());
            }
            Some(MemcacheCommand::Cas)
        } else {
            None
        }
    } else if n == 4 {
        if t[0] == 103 && t[1] == 101 && t[2] == 116 && t[3] == 115 {
            proof {
                assert(t@ =~= lit_gets());
            }
            Some(MemcacheCommand::Gets)
        } else if t[0] == 113 && t[1] == 117 && t[2] == 105 && t[3] == 116 {
            proof {
                assert(t@ =~= lit_quit());
            }
            Some(MemcacheCommand::Quit)
        } else {
            None
        }
    } else if n == 6 {
        if t[0] == 100 && t[1] == 101 && t[2] == 108 && t[3] == 101 && t[4] == 116 && t[5]
            == 101 {
            proof {
                assert(t@ =~= lit_delete());
            }
            Some(MemcacheCommand::Delete)
        } else {
            None
        }
    } else if n == 7 {
        if t[0] == 114 && t[1] == 101 && t[2] == 112 && t[3] == 108 && t[4] == 97 && t[5] == 99
            && t[6] == 101 {
            proof {
                assert(t@ =~= lit_replace());
            }
            Some(MemcacheCommand::Replace)
        } else {
            None
        }
    } else {
        None
    }
}

/// Whether a token is exactly `noreply`.
pub fn is_noreply_token(t: &[u8]) -> (r: bool)
    ensures
        r == (t@ == lit_noreply()),
{
    if t.len() == 7 && t[0] == 110 && t[1] == 111 && t[2] == 114 && t[3] == 101 && t[4] == 112
        && t[5] == 108 && t[6] == 121 {
        proof {
            assert(t@ =~= lit_noreply());
        }
        true
    } else {
        false
    }
}

/// The abstract content of a `MemcacheEntry`.
pub struct EntrySpec {
    /// The key bytes.
    pub key: Seq<u8>,
    /// The value bytes.
    pub value: Seq<u8>,
    /// Time to live in seconds; `None` and `Some(0)` mean never expire.
    pub ttl: Option<u32>,
    /// Opaque client flags.
    pub flags: u32,
    /// The CAS counter of a `cas` request.
    pub cas: Option<u64>,
}

/// The abstract content of a parsed request.
pub enum RequestSpec {
    Get { keys: Seq<Seq<u8>> },
    Gets { keys: Seq<Seq<u8>> },
    SetCmd { entry: EntrySpec, noreply: bool },
    Add { entry: EntrySpec, noreply: bool },
    Replace { entry: EntrySpec, noreply: bool },
    Cas { entry: EntrySpec, noreply: bool },
    Delete { key: Seq<u8>, noreply: bool },
    Quit,
}

impl View for MemcacheEntry {
    type V = EntrySpec;

    open spec fn view(&self) -> EntrySpec {
        EntrySpec {
            key: self.key@,
            value: self.value@,
            ttl: self.ttl,
            flags: self.flags,
            cas: self.cas,
        }
    }
}

impl View for MemcacheRequest {
    type V = RequestSpec;

    open spec fn view(&self) -> RequestSpec {
        match self {
            MemcacheRequest::Get { keys } => RequestSpec::Get { keys: toks_view(keys@) },
            MemcacheRequest::Gets { keys } => RequestSpec::Gets { keys: toks_view(keys@) },
            MemcacheRequest::SetCmd { entry, noreply } => RequestSpec::SetCmd {
                entry: entry@,
                noreply: *noreply,
            },
            MemcacheRequest::Add { entry, noreply } => RequestSpec::Add {
                entry: entry@,
                noreply: *noreply,
            },
            MemcacheRequest::Replace { entry, noreply } => RequestSpec::Replace {
                entry: entry@,
                noreply: *noreply,
            },
            MemcacheRequest::Cas { entry, noreply } => RequestSpec::Cas {
                entry: entry@,
                noreply: *noreply,
            },
            MemcacheRequest::Delete { key, noreply } => RequestSpec::Delete {
                key: key@,
                noreply: *noreply,
            },
            MemcacheRequest::Quit => RequestSpec::Quit,
        }
    }
}

/// The stored TTL derived from a wire `expiry` field. In `Unix` mode, and in
/// `Memcache` mode at or above 30 days, `expiry` is an absolute unix time and
/// the TTL is the saturating distance from `now_unix`; otherwise `expiry` is
/// the TTL itself, with 0 meaning never.
pub open spec fn spec_ttl_from(expiry: u32, tt: TimeType, now_unix: u32) -> Option<u32> {
    if tt == TimeType::Unix || (tt == TimeType::Memcache && expiry >= THIRTY_DAYS_SECS) {
        if expiry >= now_unix {
            Option::Some((expiry - now_unix) as u32)
        } else {
            Option::Some(0u32)
        }
    } else if expiry == 0 {
        Option::None
    } else {
        Option::Some(expiry)
    }
}

/// Derive the stored TTL from a wire `expiry` field.
pub fn ttl_from_expiry(expiry: u32, tt: TimeType, now_unix: u32) -> (r: Option<u32>)
    ensures
        r == spec_ttl_from(expiry, tt, now_unix),
{
    if tt == TimeType::Unix || (tt == TimeType::Memcache && expiry >= THIRTY_DAYS_SECS) {
        if expiry >= now_unix {
            Some(expiry - now_unix)
        } else {
            Some(0)
        }
    } else if expiry == 0 {
        None
    } else {
        Some(expiry)
    }
}

/// A found CRLF pair is in range.
pub proof fn lemma_find_crlf_props(b: Seq<u8>, i: int)
    requires
        0 <= i,
    ensures
        match spec_find_crlf(b, i) {
            Option::Some(j) => i <= j && j + 2 <= b.len() && b[j] == CR && b[j + 1] == LF,
            Option::None => true,
        },
    decreases b.len() - i,
{
    if i + 2 > b.len() {
    } else if b[i] == CR && b[i + 1] == LF {
    } else {
        lemma_find_crlf_props(b, i + 1);
    }
}

/// Longest buffer accepted while a `get`/`gets` line is still missing its
/// CRLF: a full batch of maximal keys plus the command.
pub const MAX_GET_LINE_LEN: usize = 257042;
/// Longest buffer accepted while any other command line is still missing its
/// CRLF.
pub const MAX_WRITE_LINE_LEN: usize = 394;

/// The command of the buffer, or why it cannot be determined yet: with
/// neither space nor CRLF the buffer is incomplete (or over the command
/// limit); a line that ends before any space can only be `quit`; a known
/// command token before the first space is returned once a CRLF exists, and
/// otherwise the buffer is incomplete up to a per-command line limit.
pub open spec fn spec_parse_command(b: Seq<u8>) -> Result<MemcacheCommand, ParseError> {
    let sp = spec_find_byte(b, SP, 0);
    let crlf = spec_find_crlf(b, 0);
    if sp is None && crlf is None {
        if b.len() > MAX_COMMAND_LEN {
            Result::Err(ParseError::Invalid)
        } else {
            Result::Err(ParseError::Incomplete)
        }
    } else if crlf is Some && (sp is None || crlf->0 < sp->0) {
        if b.take(crlf->0) == lit_quit() {
            Result::Ok(MemcacheCommand::Quit)
        } else {
            Result::Err(ParseError::Invalid)
        }
    } else {
        match spec_command_from(b.take(sp->0)) {
            Option::None => Result::Err(ParseError::Invalid),
            Option::Some(c) => if crlf is Some {
                Result::Ok(c)
            } else if c == MemcacheCommand::Get || c == MemcacheCommand::Gets {
                if b.len() > MAX_GET_LINE_LEN {
                    Result::Err(ParseError::Invalid)
                } else {
                    Result::Err(ParseError::Incomplete)
                }
            } else {
                if b.len() > MAX_WRITE_LINE_LEN {
                    Result::Err(ParseError::Invalid)
                } else {
                    Result::Err(ParseError::Incomplete)
                }
            },
        }
    }
}

/// Determine the command of the buffer.
pub fn parse_command(buffer: &[u8]) -> (r: Result<MemcacheCommand, ParseError>)
    ensures
        r == spec_parse_command(buffer@),
{
    let sp = find_byte(buffer, SP, 0);
    let crlf = find_crlf(buffer, 0);
    match (sp, crlf) {
        (None, None) => {
            if buffer.len() > MAX_COMMAND_LEN {
                Err(ParseError::Invalid)
            } else {
                Err(ParseError::Incomplete)
            }
        },
        (sp_opt, Some(le)) if sp_opt.is_none() || le < sp_opt.unwrap() => {
            proof {
                lemma_find_crlf_props(buffer@, 0);
            }
            let tok = vstd::slice::slice_subrange(buffer, 0, le);
            proof {
                assert(tok@ =~= buffer@.take(le as int));
            }
            if is_quit_token(tok) {
                Ok(MemcacheCommand::Quit)
            } else {
                Err(ParseError::Invalid)
            }
        },
        (Some(s), crlf_opt) => {
            proof {
                lemma_find_byte_props(buffer@, SP, 0);
            }
            let tok = vstd::slice::slice_subrange(buffer, 0, s);
            proof {
                assert(tok@ =~= buffer@.take(s as int));
            }
            match command_from_token(tok) {
                None => Err(ParseError::Invalid),
                Some(c) => {
                    if crlf_opt.is_some() {
                        Ok(c)
                    } else if matches!(c, MemcacheCommand::Get) || matches!(
                        c,
                        MemcacheCommand::Gets,
                    ) {
                        if buffer.len() > MAX_GET_LINE_LEN {
                            Err(ParseError::Invalid)
                        } else {
                            Err(ParseError::Incomplete)
                        }
                    } else {
                        if buffer.len() > MAX_WRITE_LINE_LEN {
                            Err(ParseError::Invalid)
                        } else {
                            Err(ParseError::Incomplete)
                        }
                    }
                },
            }
        },
        (None, Some(_)) => {
            proof {
                assert(false);
            }
            Err(ParseError::Invalid)
        },
    }
}

/// Whether a token is exactly `quit`.
fn is_quit_token(t: &[u8]) -> (r: bool)
    ensures
        r == (t@ == lit_quit()),
{
    if t.len() == 4 && t[0] == 113 && t[1] == 117 && t[2] == 105 && t[3] == 116 {
        proof {
            assert(t@ =~= lit_quit());
        }
        true
    } else {
        false
    }
}

/// Tokenize `b[start..end)` strictly: `None` when any piece, the last
/// included, is empty.
pub fn tokenize_strict(b: &[u8], start: usize, end: usize) -> (r: Option<Vec<Vec<u8>>>)
    requires
        start <= end <= b@.len(),
    ensures
        match r {
            Option::Some(ts) => spec_tokens_strict(b@.subrange(start as int, end as int))
                == Option::Some(toks_view(ts@)) && forall|i: int|
                0 <= i < ts@.len() ==> (#[trigger] ts@[i])@.len() > 0,
            Option::None => spec_tokens_strict(b@.subrange(start as int, end as int)) is None,
        },
{
    let ghost sub = b@.subrange(start as int, end as int);
    let mut toks: Vec<Vec<u8>> = Vec::new();
    let mut pos = start;
    loop
        invariant
            start <= pos <= end <= b@.len(),
            sub == b@.subrange(start as int, end as int),
            forall|i: int| 0 <= i < toks@.len() ==> (#[trigger] toks@[i])@.len() > 0,
            spec_split(sub) == toks_view(toks@) + spec_split(
                b@.subrange(pos as int, end as int),
            ),
        decreases end - pos,
    {
        let ghost rem = b@.subrange(pos as int, end as int);
        match find_sp_in(b, pos, end) {
            Some(j) => {
                proof {
                    assert(rem[j - pos] == SP);
                    assert forall|m: int| 0 <= m < j - pos implies rem[m] != SP by {
                        assert(rem[m] == b@[pos + m]);
                    }
                    lemma_find_byte_first(rem, SP, 0, j - pos);
                    assert(spec_split(rem) == seq![rem.take(j - pos)] + spec_split(
                        rem.skip(j - pos + 1),
                    ));
                    assert(rem.take(j - pos) =~= b@.subrange(pos as int, j as int));
                    assert(rem.skip(j - pos + 1) =~= b@.subrange(j + 1, end as int));
                }
                if j == pos {
                    proof {
                        let tv = toks_view(toks@);
                        let tail = spec_split(b@.subrange(j + 1, end as int));
                        lemma_split_len_pos(b@.subrange(j + 1, end as int));
                        assert(rem.take(0) =~= Seq::<u8>::empty());
                        assert(spec_split(sub) =~= tv + seq![Seq::<u8>::empty()] + tail);
                        assert(spec_split(sub)[tv.len() as int].len() == 0);
                        assert(spec_tokens_strict(sub) is None);
                    }
                    return None;
                }
                let piece = vstd::slice::slice_to_vec(vstd::slice::slice_subrange(b, pos, j));
                proof {
                    let tv1 = toks_view(toks@.push(piece));
                    assert(tv1 =~= toks_view(toks@) + seq![piece@]);
                }
                toks.push(piece);
                pos = j + 1;
            },
            None => {
                proof {
                    assert forall|m: int| 0 <= m < rem.len() implies rem[m] != SP by {
                        assert(rem[m] == b@[pos + m]);
                    }
                    lemma_find_byte_none(rem, SP, 0);
                    assert(spec_split(rem) == seq![rem]);
                }
                if pos == end {
                    proof {
                        let tv = toks_view(toks@);
                        assert(rem =~= Seq::<u8>::empty());
                        assert(spec_split(sub) =~= tv + seq![Seq::<u8>::empty()]);
                        assert(spec_split(sub)[tv.len() as int].len() == 0);
                        assert(spec_tokens_strict(sub) is None);
                    }
                    return None;
                }
                let piece = vstd::slice::slice_to_vec(vstd::slice::slice_subrange(b, pos, end));
                proof {
                    assert(piece@ =~= rem);
                }
                toks.push(piece);
                proof {
                    let tv = toks_view(toks@);
                    assert(tv =~= toks_view(toks@.drop_last()) + seq![rem]);
                    assert(spec_split(sub) == tv);
                    assert forall|i: int|
                        0 <= i < spec_split(sub).len() implies (#[trigger] spec_split(
                        sub,
                    )[i]).len() > 0 by {
                        assert(spec_split(sub)[i] == tv[i]);
                    }
                    assert(spec_tokens_strict(sub) == Option::Some(tv));
                }
                return Some(toks);
            },
        }
    }
}

/// The parse of a `get`/`gets` request: the keys of the line after the
/// command token, their count and sizes within limits, consuming the line.
pub open spec fn spec_parse_get(b: Seq<u8>, gets: bool) -> Result<(RequestSpec, int), ParseError> {
    let sp = spec_find_byte(b, SP, 0);
    let crlf = spec_find_crlf(b, 0);
    if crlf is None {
        Result::Err(ParseError::Incomplete)
    } else if !(sp is Some && sp->0 < crlf->0) {
        Result::Err(ParseError::Invalid)
    } else {
        let le = crlf->0;
        match spec_tokens(b.subrange(sp->0 + 1, le)) {
            Option::None => Result::Err(ParseError::Invalid),
            Option::Some(ks) => {
                if ks.len() == 0 || ks.len() > MAX_BATCH_SIZE {
                    Result::Err(ParseError::Invalid)
                } else if !(forall|i: int|
                    0 <= i < ks.len() ==> (#[trigger] ks[i]).len() <= MAX_KEY_LEN) {
                    Result::Err(ParseError::Invalid)
                } else if gets {
                    Result::Ok((RequestSpec::Gets { keys: ks }, le + 2))
                } else {
                    Result::Ok((RequestSpec::Get { keys: ks }, le + 2))
                }
            },
        }
    }
}

/// Parse the key list and consumed length of a `get`/`gets` request.
fn parse_get_keys(buffer: &[u8]) -> (r: Result<(Vec<Vec<u8>>, usize), ParseError>)
    ensures
        match r {
            Result::Ok((keys, consumed)) => {
                &&& spec_parse_get(buffer@, false) == Result::<
                    (RequestSpec, int),
                    ParseError,
                >::Ok((RequestSpec::Get { keys: toks_view(keys@) }, consumed as int))
                &&& spec_parse_get(buffer@, true) == Result::<
                    (RequestSpec, int),
                    ParseError,
                >::Ok((RequestSpec::Gets { keys: toks_view(keys@) }, consumed as int))
            },
            Result::Err(e) => spec_parse_get(buffer@, false) == Result::<
                (RequestSpec, int),
                ParseError,
            >::Err(e) && spec_parse_get(buffer@, true) == Result::<
                (RequestSpec, int),
                ParseError,
            >::Err(e),
        },
{
    let n = buffer.len();
    let le = match find_crlf(buffer, 0) {
        Some(le) => le,
        None => {
            return Err(ParseError::Incomplete);
        },
    };
    let sp = match find_byte(buffer, SP, 0) {
        Some(sp) => sp,
        None => {
            return Err(ParseError::Invalid);
        },
    };
    if sp >= le {
        return Err(ParseError::Invalid);
    }
    proof {
        lemma_find_crlf_props(buffer@, 0);
        lemma_find_byte_props(buffer@, SP, 0);
    }
    let toks = match tokenize(buffer, sp + 1, le) {
        Some(ts) => ts,
        None => {
            return Err(ParseError::Invalid);
        },
    };
    if toks.len() == 0 || toks.len() > MAX_BATCH_SIZE {
        return Err(ParseError::Invalid);
    }
    let mut i: usize = 0;
    #[verifier::loop_isolation(false)]
    while i < toks.len()
        invariant
            i <= toks@.len(),
            forall|j: int| 0 <= j < i ==> (#[trigger] toks@[j])@.len() <= MAX_KEY_LEN,
        decreases toks@.len() - i,
    {
        if toks[i].len() > MAX_KEY_LEN {
            proof {
                let ks = toks_view(toks@);
                assert(ks[i as int].len() > MAX_KEY_LEN);
            }
            return Err(ParseError::Invalid);
        }
        i = i + 1;
    }
    proof {
        let ks = toks_view(toks@);
        assert forall|j: int| 0 <= j < ks.len() implies (#[trigger] ks[j]).len()
            <= MAX_KEY_LEN by {
            assert(toks@[j]@.len() <= MAX_KEY_LEN);
        }
        assert(le + 2 <= n);
    }
    Ok((toks, le + 2))
}

/// Parse a `get` request from the buffer.
pub fn parse_get(buffer: &[u8]) -> (r: Result<ParseOk, ParseError>)
    ensures
        match r {
            Result::Ok(po) => Result::<(RequestSpec, int), ParseError>::Ok(
                (po.message@, po.consumed as int),
            ) == spec_parse_get(buffer@, false),
            Result::Err(e) => spec_parse_get(buffer@, false) == Result::<
                (RequestSpec, int),
                ParseError,
            >::Err(e),
        },
{
    match parse_get_keys(buffer) {
        Ok((keys, consumed)) => Ok(
            ParseOk { message: MemcacheRequest::Get { keys }, consumed },
        ),
        Err(e) => Err(e),
    }
}

/// Parse a `gets` request from the buffer.
pub fn parse_gets(buffer: &[u8]) -> (r: Result<ParseOk, ParseError>)
    ensures
        match r {
            Result::Ok(po) => Result::<(RequestSpec, int), ParseError>::Ok(
                (po.message@, po.consumed as int),
            ) == spec_parse_get(buffer@, true),
            Result::Err(e) => spec_parse_get(buffer@, true) == Result::<
                (RequestSpec, int),
                ParseError,
            >::Err(e),
        },
{
    match parse_get_keys(buffer) {
        Ok((keys, consumed)) => Ok(
            ParseOk { message: MemcacheRequest::Gets { keys }, consumed },
        ),
        Err(e) => Err(e),
    }
}

/// The parse of a write request line (`set`/`add`/`replace` without a CAS
/// field, `cas` with one): the entry, the `noreply` flag and the consumed
/// length. `Incomplete` when the value's bytes have not all arrived.
pub open spec fn spec_parse_write(
    b: Seq<u8>,
    is_cas: bool,
    max_value_size: int,
    tt: TimeType,
    now_unix: u32,
) -> Result<(EntrySpec, bool, int), ParseError> {
    let sp = spec_find_byte(b, SP, 0);
    let crlf = spec_find_crlf(b, 0);
    if crlf is None {
        Result::Err(ParseError::Incomplete)
    } else if !(sp is Some && sp->0 < crlf->0) {
        Result::Err(ParseError::Invalid)
    } else {
        let le = crlf->0;
        match spec_tokens(b.subrange(sp->0 + 1, le)) {
            Option::None => Result::Err(ParseError::Invalid),
            Option::Some(ts) => {
                let n_req: int = if is_cas {
                    5
                } else {
                    4
                };
                if !(ts.len() == n_req || (ts.len() == n_req + 1 && ts.last()
                    == lit_noreply())) {
                    Result::Err(ParseError::Invalid)
                } else if ts[0].len() > MAX_KEY_LEN {
                    Result::Err(ParseError::Invalid)
                } else {
                    let noreply = ts.len() == n_req + 1;
                    match (spec_parse_u32(ts[1]), spec_parse_u32(ts[2]), spec_parse_u64(ts[3])) {
                        (Option::Some(flags), Option::Some(expiry), Option::Some(nbytes)) => {
                            if nbytes > max_value_size {
                                Result::Err(ParseError::Invalid)
                            } else if is_cas && spec_parse_u64(ts[4]) is None {
                                Result::Err(ParseError::Invalid)
                            } else {
                                let casv = if is_cas {
                                    Option::Some(spec_parse_u64(ts[4])->0)
                                } else {
                                    Option::<u64>::None
                                };
                                let consumed = le + 2 + nbytes + 2;
                                if b.len() < consumed {
                                    Result::Err(ParseError::Incomplete)
                                } else {
                                    Result::Ok(
                                        (
                                            EntrySpec {
                                                key: ts[0],
                                                value: b.subrange(le + 2, le + 2 + nbytes),
                                                ttl: spec_ttl_from(expiry, tt, now_unix),
                                                flags,
                                                cas: casv,
                                            },
                                            noreply,
                                            consumed,
                                        ),
                                    )
                                }
                            }
                        },
                        _ => Result::Err(ParseError::Invalid),
                    }
                }
            },
        }
    }
}

/// Parse the entry, `noreply` flag and consumed length of a write request.
#[verifier::rlimit(30)]
fn parse_write_fields(
    buffer: &[u8],
    is_cas: bool,
    max_value_size: usize,
    time_type: TimeType,
    now_unix: u32,
) -> (r: Result<(MemcacheEntry, bool, usize), ParseError>)
    ensures
        match r {
            Result::Ok((entry, noreply, consumed)) => spec_parse_write(
                buffer@,
                is_cas,
                max_value_size as int,
                time_type,
                now_unix,
            ) == Result::<(EntrySpec, bool, int), ParseError>::Ok(
                (entry@, noreply, consumed as int),
            ),
            Result::Err(e) => spec_parse_write(
                buffer@,
                is_cas,
                max_value_size as int,
                time_type,
                now_unix,
            ) == Result::<(EntrySpec, bool, int), ParseError>::Err(e),
        },
{
    let n = buffer.len();
    let le = match find_crlf(buffer, 0) {
        Some(le) => le,
        None => {
            return Err(ParseError::Incomplete);
        },
    };
    let sp = match find_byte(buffer, SP, 0) {
        Some(sp) => sp,
        None => {
            return Err(ParseError::Invalid);
        },
    };
    if sp >= le {
        return Err(ParseError::Invalid);
    }
    proof {
        lemma_find_crlf_props(buffer@, 0);
        lemma_find_byte_props(buffer@, SP, 0);
    }
    let toks = match tokenize(buffer, sp + 1, le) {
        Some(ts) => ts,
        None => {
            return Err(ParseError::Invalid);
        },
    };
    let n_req: usize = if is_cas {
        5
    } else {
        4
    };
    let ghost ts = toks_view(toks@);
    let noreply: bool;
    if toks.len() == n_req {
        noreply = false;
    } else if toks.len() == n_req + 1 && is_noreply_token(toks[toks.len() - 1].as_slice()) {
        proof {
            assert(ts.last() == toks@[toks@.len() - 1]@);
        }
        noreply = true;
    } else {
        proof {
            if toks.len() == n_req + 1 {
                assert(ts.last() == toks@[toks@.len() - 1]@);
            }
        }
        return Err(ParseError::Invalid);
    }
    if toks[0].len() > MAX_KEY_LEN {
        return Err(ParseError::Invalid);
    }
    let flags = match parse_u32(toks[1].as_slice()) {
        Some(v) => v,
        None => {
            return Err(ParseError::Invalid);
        },
    };
    let expiry = match parse_u32(toks[2].as_slice()) {
        Some(v) => v,
        None => {
            return Err(ParseError::Invalid);
        },
    };
    let nbytes = match parse_u64(toks[3].as_slice()) {
        Some(v) => v,
        None => {
            return Err(ParseError::Invalid);
        },
    };
    if nbytes > max_value_size as u64 {
        return Err(ParseError::Invalid);
    }
    let casv: Option<u64> = if is_cas {
        match parse_u64(toks[4].as_slice()) {
            Some(v) => Some(v),
            None => {
                return Err(ParseError::Invalid);
            },
        }
    } else {
        None
    };
    if (n as u128) < le as u128 + 4 + nbytes as u128 {
        return Err(ParseError::Incomplete);
    }
    let nbytes_us = nbytes as usize;
    let consumed = le + 2 + nbytes_us + 2;
    let value = vstd::slice::slice_to_vec(
        vstd::slice::slice_subrange(buffer, le + 2, le + 2 + nbytes_us),
    );
    let key = vstd::slice::slice_to_vec(toks[0].as_slice());
    let ttl = ttl_from_expiry(expiry, time_type, now_unix);
    let entry = MemcacheEntry { key, value, ttl, flags, cas: casv };
    Ok((entry, noreply, consumed))
}

/// The parse of a `delete` request: the key (and optional `noreply`) of the
/// line after the command token, with no trailing space tolerated.
pub open spec fn spec_parse_delete(b: Seq<u8>) -> Result<(RequestSpec, int), ParseError> {
    let sp = spec_find_byte(b, SP, 0);
    let crlf = spec_find_crlf(b, 0);
    if crlf is None {
        Result::Err(ParseError::Incomplete)
    } else if !(sp is Some && sp->0 < crlf->0) {
        Result::Err(ParseError::Invalid)
    } else {
        let le = crlf->0;
        match spec_tokens_strict(b.subrange(sp->0 + 1, le)) {
            Option::None => Result::Err(ParseError::Invalid),
            Option::Some(ts) => {
                if !(ts.len() == 1 || (ts.len() == 2 && ts[1] == lit_noreply())) {
                    Result::Err(ParseError::Invalid)
                } else if ts[0].len() > MAX_KEY_LEN {
                    Result::Err(ParseError::Invalid)
                } else {
                    Result::Ok(
                        (RequestSpec::Delete { key: ts[0], noreply: ts.len() == 2 }, le + 2),
                    )
                }
            },
        }
    }
}

/// Parse a `delete` request from the buffer.
pub fn parse_delete(buffer: &[u8]) -> (r: Result<ParseOk, ParseError>)
    ensures
        match r {
            Result::Ok(po) => Result::<(RequestSpec, int), ParseError>::Ok(
                (po.message@, po.consumed as int),
            ) == spec_parse_delete(buffer@),
            Result::Err(e) => spec_parse_delete(buffer@) == Result::<
                (RequestSpec, int),
                ParseError,
            >::Err(e),
        },
{
    let n = buffer.len();
    let le = match find_crlf(buffer, 0) {
        Some(le) => le,
        None => {
            return Err(ParseError::Incomplete);
        },
    };
    let sp = match find_byte(buffer, SP, 0) {
        Some(sp) => sp,
        None => {
            return Err(ParseError::Invalid);
        },
    };
    if sp >= le {
        return Err(ParseError::Invalid);
    }
    proof {
        lemma_find_crlf_props(buffer@, 0);
        lemma_find_byte_props(buffer@, SP, 0);
    }
    let mut toks = match tokenize_strict(buffer, sp + 1, le) {
        Some(ts) => ts,
        None => {
            return Err(ParseError::Invalid);
        },
    };
    let ghost ts = toks_view(toks@);
    let noreply: bool;
    if toks.len() == 1 {
        noreply = false;
    } else if toks.len() == 2 && is_noreply_token(toks[1].as_slice()) {
        proof {
            assert(ts[1] == toks@[1]@);
        }
        noreply = true;
    } else {
        proof {
            if toks.len() == 2 {
                assert(ts[1] == toks@[1]@);
            }
        }
        return Err(ParseError::Invalid);
    }
    if toks[0].len() > MAX_KEY_LEN {
        return Err(ParseError::Invalid);
    }
    let key = vstd::slice::slice_to_vec(toks[0].as_slice());
    Ok(ParseOk { message: MemcacheRequest::Delete { key, noreply }, consumed: le + 2 })
}

/// A successful parse: the typed request plus how many buffer bytes it took.
pub struct ParseOk {
    /// The parsed request.
    pub message: MemcacheRequest,
    /// Number of bytes of the buffer the request occupied.
    pub consumed: usize,
}

impl ParseOk {
    /// Number of bytes of the buffer the request occupied.
    pub fn consumed(&self) -> (r: usize)
        ensures
            r == self.consumed,
    {
        self.consumed
    }

    /// Take the typed request out.
    pub fn into_inner(self) -> (r: MemcacheRequest)
        ensures
            r == self.message,
    {
        self.message
    }
}

/// Parse a `set` request (`is_cas` false) or a `cas` request (`is_cas` true).
pub fn parse_set(
    buffer: &[u8],
    is_cas: bool,
    max_value_size: usize,
    time_type: TimeType,
    now_unix: u32,
) -> (r: Result<ParseOk, ParseError>)
    ensures
        ({
            let w = spec_parse_write(buffer@, is_cas, max_value_size as int, time_type, now_unix);
            match r {
                Result::Ok(po) => w matches Result::Ok(f) && po.consumed == f.2 && po.message@
                    == (if is_cas {
                    RequestSpec::Cas { entry: f.0, noreply: f.1 }
                } else {
                    RequestSpec::SetCmd { entry: f.0, noreply: f.1 }
                }),
                Result::Err(e) => w == Result::<(EntrySpec, bool, int), ParseError>::Err(e),
            }
        }),
{
    match parse_write_fields(buffer, is_cas, max_value_size, time_type, now_unix) {
        Ok((entry, noreply, consumed)) => {
            let message = if is_cas {
                MemcacheRequest::Cas { entry, noreply }
            } else {
                MemcacheRequest::SetCmd { entry, noreply }
            };
            Ok(ParseOk { message, consumed })
        },
        Err(e) => Err(e),
    }
}

/// Parse an `add` request: a `set`-shaped line relabelled `Add`.
pub fn parse_add(buffer: &[u8], max_value_size: usize, time_type: TimeType, now_unix: u32) -> (r:
    Result<ParseOk, ParseError>)
    ensures
        ({
            let w = spec_parse_write(buffer@, false, max_value_size as int, time_type, now_unix);
            match r {
                Result::Ok(po) => w matches Result::Ok(f) && po.consumed == f.2 && po.message@
                    == RequestSpec::Add { entry: f.0, noreply: f.1 },
                Result::Err(e) => w == Result::<(EntrySpec, bool, int), ParseError>::Err(e),
            }
        }),
{
    match parse_write_fields(buffer, false, max_value_size, time_type, now_unix) {
        Ok((entry, noreply, consumed)) => Ok(
            ParseOk { message: MemcacheRequest::Add { entry, noreply }, consumed },
        ),
        Err(e) => Err(e),
    }
}

/// Parse a `replace` request: a `set`-shaped line relabelled `Replace`.
pub fn parse_replace(
    buffer: &[u8],
    max_value_size: usize,
    time_type: TimeType,
    now_unix: u32,
) -> (r: Result<ParseOk, ParseError>)
    ensures
        ({
            let w = spec_parse_write(buffer@, false, max_value_size as int, time_type, now_unix);
            match r {
                Result::Ok(po) => w matches Result::Ok(f) && po.consumed == f.2 && po.message@
                    == RequestSpec::Replace { entry: f.0, noreply: f.1 },
                Result::Err(e) => w == Result::<(EntrySpec, bool, int), ParseError>::Err(e),
            }
        }),
{
    match parse_write_fields(buffer, false, max_value_size, time_type, now_unix) {
        Ok((entry, noreply, consumed)) => Ok(
            ParseOk { message: MemcacheRequest::Replace { entry, noreply }, consumed },
        ),
        Err(e) => Err(e),
    }
}

/// The parse of a whole buffer: dispatch on the command of its first line.
/// `quit` is treated as invalid at this level; the caller closes the
/// connection.
pub open spec fn spec_parse(b: Seq<u8>, max_value_size: int, tt: TimeType, now_unix: u32)
    -> Result<(RequestSpec, int), ParseError> {
    match spec_parse_command(b) {
        Result::Err(e) => Result::Err(e),
        Result::Ok(cmd) => match cmd {
            MemcacheCommand::Get => spec_parse_get(b, false),
            MemcacheCommand::Gets => spec_parse_get(b, true),
            MemcacheCommand::SetCmd => match spec_parse_write(b, false, max_value_size, tt,
                now_unix) {
                Result::Err(e) => Result::Err(e),
                Result::Ok(f) => Result::Ok(
                    (RequestSpec::SetCmd { entry: f.0, noreply: f.1 }, f.2),
                ),
            },
            MemcacheCommand::Add => match spec_parse_write(b, false, max_value_size, tt,
                now_unix) {
                Result::Err(e) => Result::Err(e),
                Result::Ok(f) => Result::Ok((RequestSpec::Add { entry: f.0, noreply: f.1 }, f.2)),
            },
            MemcacheCommand::Replace => match spec_parse_write(b, false, max_value_size, tt,
                now_unix) {
                Result::Err(e) => Result::Err(e),
                Result::Ok(f) => Result::Ok(
                    (RequestSpec::Replace { entry: f.0, noreply: f.1 }, f.2),
                ),
            },
            MemcacheCommand::Cas => match spec_parse_write(b, true, max_value_size, tt, now_unix) {
                Result::Err(e) => Result::Err(e),
                Result::Ok(f) => Result::Ok((RequestSpec::Cas { entry: f.0, noreply: f.1 }, f.2)),
            },
            MemcacheCommand::Delete => spec_parse_delete(b),
            MemcacheCommand::Quit => match spec_find_crlf(b, 0) {
                Option::Some(le) => Result::Ok((RequestSpec::Quit, le + 2)),
                Option::None => Result::Err(ParseError::Incomplete),
            },
        },
    }
}

/// A successful parse consumes at least one byte and at most the buffer.
pub proof fn lemma_parse_consumed_bounds(
    b: Seq<u8>,
    max_value_size: int,
    tt: TimeType,
    now_unix: u32,
)
    ensures
        spec_parse(b, max_value_size, tt, now_unix) matches Result::Ok(p) ==> 0 < p.1 <= b.len(),
{
    if spec_parse(b, max_value_size, tt, now_unix) is Ok {
        lemma_find_crlf_props(b, 0);
        lemma_find_byte_props(b, SP, 0);
    }
}

/// Default cap on value sizes when none is configured.
pub const DEFAULT_MAX_VALUE_SIZE: usize = usize::MAX / 2;

/// An incremental parser for the text Memcache protocol, configured with a
/// value size cap and an expiry interpretation.
#[derive(Clone, Copy)]
pub struct MemcacheRequestParser {
    /// Largest accepted value, in bytes.
    pub max_value_size: usize,
    /// How wire expiry fields are interpreted.
    pub time_type: TimeType,
}

impl MemcacheRequestParser {
    /// A parser with the given value size cap and expiry interpretation.
    pub fn new(max_value_size: usize, time_type: TimeType) -> (r: Self)
        ensures
            r.max_value_size == max_value_size,
            r.time_type == time_type,
    {
        Self { max_value_size, time_type }
    }

    /// Parse one request from the front of `buffer`, reading expiry fields
    /// against the unix clock reading `now_unix`. Returns the typed request
    /// and how many bytes it consumed, or `Incomplete`/`Invalid` exactly as
    /// `spec_parse` says.
    pub fn parse(&self, buffer: &[u8], now_unix: u32) -> (r: Result<ParseOk, ParseError>)
        ensures
            match r {
                Result::Ok(po) => Result::<(RequestSpec, int), ParseError>::Ok(
                    (po.message@, po.consumed as int),
                ) == spec_parse(buffer@, self.max_value_size as int, self.time_type, now_unix),
                Result::Err(e) => spec_parse(
                    buffer@,
                    self.max_value_size as int,
                    self.time_type,
                    now_unix,
                ) == Result::<(RequestSpec, int), ParseError>::Err(e),
            },
    {
        match parse_command(buffer)? {
            MemcacheCommand::Get => parse_get(buffer),
            MemcacheCommand::Gets => parse_gets(buffer),
            MemcacheCommand::SetCmd => parse_set(
                buffer,
                false,
                self.max_value_size,
                self.time_type,
                now_unix,
            ),
            MemcacheCommand::Add => parse_add(
                buffer,
                self.max_value_size,
                self.time_type,
                now_unix,
            ),
            MemcacheCommand::Replace => parse_replace(
                buffer,
                self.max_value_size,
                self.time_type,
                now_unix,
            ),
            MemcacheCommand::Cas => parse_set(
                buffer,
                true,
                self.max_value_size,
                self.time_type,
                now_unix,
            ),
            MemcacheCommand::Delete => parse_delete(buffer),
            MemcacheCommand::Quit => {
                match find_crlf(buffer, 0) {
                    Some(le) => {
                        let n = buffer.len();
                        proof {
                            lemma_find_crlf_props(buffer@, 0);
                            assert(le + 2 <= n);
                        }
                        Ok(ParseOk { message: MemcacheRequest::Quit, consumed: le + 2 })
                    },
                    None => Err(ParseError::Incomplete),
                }
            },
        }
    }
}

impl Default for MemcacheRequestParser {
    /// A parser with the default value size cap, reading expiries in
    /// `Memcache` mode.
    fn default() -> (r: Self)
        ensures
            r.max_value_size == DEFAULT_MAX_VALUE_SIZE,
            r.time_type == TimeType::Memcache,
    {
        Self { max_value_size: DEFAULT_MAX_VALUE_SIZE, time_type: TimeType::Memcache }
    }
}

} // verus!
