//! The admin protocol: recognizing `stats` requests and formatting the
//! sorted `STAT` lines of the reply.

use vstd::prelude::*;
use vstd::multiset::Multiset;
use crate::protocol::ParseError;
use crate::response::{extend_bytes, format_u64, lit_end, spec_udec, lit_crlf};

verus! {

/// A recognized admin request.
#[derive(Clone, Copy, PartialEq, Eq, Structural, Debug)]
pub enum AdminRequest {
    /// Report all stat counters.
    Stats,
}

/// Whether byte `b` is the letter `lower` in either case; `lower` is the
/// lowercase ASCII letter.
pub open spec fn spec_eq_ci(b: u8, lower: u8) -> bool {
    b == lower || b + 32 == lower
}

/// Whether the 7 bytes spell `stats\r\n`, the letters in any mix of cases.
pub open spec fn spec_is_stats_line(t: Seq<u8>) -> bool {
    &&& t.len() == 7
    &&& spec_eq_ci(t[0], 115)
    &&& spec_eq_ci(t[1], 116)
    &&& spec_eq_ci(t[2], 97)
    &&& spec_eq_ci(t[3], 116)
    &&& spec_eq_ci(t[4], 115)
    &&& t[5] == 13
    &&& t[6] == 10
}

/// The parse of an admin buffer: `stats\r\n`, matched case-insensitively, is
/// the only recognized request; shorter buffers are incomplete, anything
/// else is invalid.
pub open spec fn spec_parse_admin(b: Seq<u8>) -> Result<(AdminRequest, int), ParseError> {
    if b.len() < 7 {
        Result::Err(ParseError::Incomplete)
    } else if spec_is_stats_line(b.take(7)) {
        Result::Ok((AdminRequest::Stats, 7))
    } else {
        Result::Err(ParseError::Invalid)
    }
}

/// Whether byte `b` is the letter `lower` in either case.
fn eq_ci(b: u8, lower: u8) -> (r: bool)
    requires
        97 <= lower <= 122,
    ensures
        r == spec_eq_ci(b, lower),
{
    b == lower || b == lower - 32
}

/// Recognize one admin request at the front of the buffer.
pub fn parse_admin_request(buffer: &[u8]) -> (r: Result<(AdminRequest, usize), ParseError>)
    ensures
        match r {
            Result::Ok((req, consumed)) => spec_parse_admin(buffer@) == Result::<
                (AdminRequest, int),
                ParseError,
            >::Ok((req, consumed as int)),
            Result::Err(e) => spec_parse_admin(buffer@) == Result::<
                (AdminRequest, int),
                ParseError,
            >::Err(e),
        },
{
    if buffer.len() < 7 {
        return Err(ParseError::Incomplete);
    }
    let is_stats = eq_ci(buffer[0], 115) && eq_ci(buffer[1], 116) && eq_ci(buffer[2], 97)
        && eq_ci(buffer[3], 116) && eq_ci(buffer[4], 115) && buffer[5] == 13 && buffer[6] == 10;
    proof {
        assert(buffer@.take(7).len() == 7);
        assert forall|i: int| 0 <= i < 7 implies buffer@.take(7)[i] == buffer@[i] by {
        }
        assert(is_stats == spec_is_stats_line(buffer@.take(7)));
    }
    if is_stats {
        Ok((AdminRequest::Stats, 7))
    } else {
        Err(ParseError::Invalid)
    }
}

/// Byte-wise lexicographic order.
pub open spec fn spec_lex_le(a: Seq<u8>, b: Seq<u8>) -> bool
    decreases a.len(),
{
    if a.len() == 0 {
        true
    } else if b.len() == 0 {
        false
    } else if a[0] < b[0] {
        true
    } else if a[0] > b[0] {
        false
    } else {
        spec_lex_le(a.drop_first(), b.drop_first())
    }
}

/// Lexicographic order is total.
pub proof fn lemma_lex_total(a: Seq<u8>, b: Seq<u8>)
    ensures
        spec_lex_le(a, b) || spec_lex_le(b, a),
    decreases a.len(),
{
    if a.len() > 0 && b.len() > 0 && a[0] == b[0] {
        lemma_lex_total(a.drop_first(), b.drop_first());
    }
}

/// Lexicographic order is antisymmetric.
pub proof fn lemma_lex_antisym(a: Seq<u8>, b: Seq<u8>)
    requires
        spec_lex_le(a, b),
        spec_lex_le(b, a),
    ensures
        a == b,
    decreases a.len(),
{
    if a.len() == 0 {
        assert(b.len() == 0);
        assert(a =~= b);
    } else {
        assert(b.len() > 0);
        assert(a[0] == b[0]);
        lemma_lex_antisym(a.drop_first(), b.drop_first());
        assert(a.drop_first() == b.drop_first());
        assert forall|i: int| 0 <= i < a.len() implies a[i] == b[i] by {
            if i > 0 {
                assert(a[i] == a.drop_first()[i - 1]);
                assert(b[i] == b.drop_first()[i - 1]);
            }
        }
        assert(a =~= b);
    }
}

/// Lexicographic order is transitive.
pub proof fn lemma_lex_trans(a: Seq<u8>, b: Seq<u8>, c: Seq<u8>)
    requires
        spec_lex_le(a, b),
        spec_lex_le(b, c),
    ensures
        spec_lex_le(a, c),
    decreases a.len(),
{
    if a.len() > 0 && b.len() > 0 && c.len() > 0 && a[0] == b[0] && b[0] == c[0] {
        lemma_lex_trans(a.drop_first(), b.drop_first(), c.drop_first());
    }
}

/// Order on stat records: by name, ties by value.
pub open spec fn spec_stat_le(a: (Seq<u8>, u64), b: (Seq<u8>, u64)) -> bool {
    if a.0 == b.0 {
        a.1 <= b.1
    } else {
        spec_lex_le(a.0, b.0)
    }
}

/// Stat order is total.
pub proof fn lemma_stat_total(a: (Seq<u8>, u64), b: (Seq<u8>, u64))
    ensures
        spec_stat_le(a, b) || spec_stat_le(b, a),
{
    if a.0 != b.0 {
        lemma_lex_total(a.0, b.0);
    }
}

/// Stat order is transitive.
pub proof fn lemma_stat_trans(a: (Seq<u8>, u64), b: (Seq<u8>, u64), c: (Seq<u8>, u64))
    ensures
        spec_stat_le(a, b) && spec_stat_le(b, c) ==> spec_stat_le(a, c),
{
    if spec_stat_le(a, b) && spec_stat_le(b, c) {
        if a.0 != b.0 && b.0 != c.0 {
            lemma_lex_trans(a.0, b.0, c.0);
            if a.0 == c.0 {
                lemma_lex_antisym(a.0, b.0);
            }
        }
    }
}

/// The abstract record of one stat.
pub open spec fn stat_view(p: (Vec<u8>, u64)) -> (Seq<u8>, u64) {
    (p.0@, p.1)
}

/// The abstract records of a stat vector.
pub open spec fn stat_views(s: Seq<(Vec<u8>, u64)>) -> Seq<(Seq<u8>, u64)> {
    s.map_values(|p: (Vec<u8>, u64)| stat_view(p))
}

/// Whether the records are in nondecreasing stat order.
pub open spec fn spec_sorted_stats(s: Seq<(Seq<u8>, u64)>) -> bool {
    forall|i: int, j: int| 0 <= i < j < s.len() ==> spec_stat_le(#[trigger] s[i], #[trigger] s[j])
}

/// Byte-wise lexicographic comparison.
pub fn lex_le(a: &[u8], b: &[u8]) -> (r: bool)
    ensures
        r == spec_lex_le(a@, b@),
{
    let mut i: usize = 0;
    let na = a.len();
    let nb = b.len();
    proof {
        assert(a@.skip(0) =~= a@);
        assert(b@.skip(0) =~= b@);
    }
    loop
        invariant
            i <= na,
            i <= nb,
            na == a@.len(),
            nb == b@.len(),
            spec_lex_le(a@, b@) == spec_lex_le(a@.skip(i as int), b@.skip(i as int)),
        decreases na - i,
    {
        if i >= na {
            proof {
                assert(a@.skip(i as int).len() == 0);
            }
            return true;
        }
        if i >= nb {
            proof {
                assert(b@.skip(i as int).len() == 0);
                assert(a@.skip(i as int).len() > 0);
            }
            return false;
        }
        let ca = a[i];
        let cb = b[i];
        proof {
            assert(a@.skip(i as int)[0] == a@[i as int]);
            assert(b@.skip(i as int)[0] == b@[i as int]);
        }
        if ca < cb {
            return true;
        }
        if ca > cb {
            return false;
        }
        proof {
            assert(a@.skip(i as int).drop_first() =~= a@.skip(i + 1));
            assert(b@.skip(i as int).drop_first() =~= b@.skip(i + 1));
        }
        i = i + 1;
    }
}

/// Comparison of stat records: by name, ties by value.
pub fn stat_le(a: &(Vec<u8>, u64), b: &(Vec<u8>, u64)) -> (r: bool)
    ensures
        r == spec_stat_le(stat_view(*a), stat_view(*b)),
{
    if crate::hashtable::bytes_eq(a.0.as_slice(), b.0.as_slice()) {
        a.1 <= b.1
    } else {
        lex_le(a.0.as_slice(), b.0.as_slice())
    }
}

/// Sort stat records into nondecreasing stat order; the result holds exactly
/// the given records.
pub fn sort_stats(stats: Vec<(Vec<u8>, u64)>) -> (r: Vec<(Vec<u8>, u64)>)
    ensures
        spec_sorted_stats(stat_views(r@)),
        stat_views(r@).to_multiset() == stat_views(stats@).to_multiset(),
{
    let mut rest = stats;
    let mut out: Vec<(Vec<u8>, u64)> = Vec::new();
    let ghost all = stat_views(rest@);
    proof {
        broadcast use vstd::seq_lib::group_to_multiset_ensures;

        assert(stat_views(out@).len() == 0);
        assert forall|x: (Seq<u8>, u64)| stat_views(out@).to_multiset().count(x) == 0 by {
            if stat_views(out@).to_multiset().count(x) > 0 {
                assert(stat_views(out@).contains(x));
            }
        }
        assert(stat_views(out@).to_multiset().add(stat_views(rest@).to_multiset())
            =~= all.to_multiset());
    }
    while rest.len() > 0
        invariant
            spec_sorted_stats(stat_views(out@)),
            stat_views(out@).to_multiset().add(stat_views(rest@).to_multiset())
                == all.to_multiset(),
        decreases rest@.len(),
    {
        let ghost rest0 = rest@;
        let x = rest.remove(0);
        proof {
            broadcast use vstd::seq_lib::group_to_multiset_ensures;

            assert(stat_views(rest0).to_multiset() == stat_views(rest@).to_multiset().insert(
                stat_view(x),
            )) by {
                assert(stat_views(rest0)[0] == stat_view(x));
                assert(stat_views(rest0).remove(0) =~= stat_views(rest@));
                assert(stat_views(rest0).remove(0).to_multiset() == stat_views(
                    rest0,
                ).to_multiset().remove(stat_view(x)));
                assert(stat_views(rest0).to_multiset().count(stat_view(x)) > 0) by {
                    assert(stat_views(rest0).contains(stat_view(x)));
                }
                assert(stat_views(rest0).to_multiset().remove(stat_view(x)).insert(stat_view(x))
                    =~= stat_views(rest0).to_multiset());
            }
        }
        // find the first position whose record is not below `x`
        let mut idx: usize = 0;
        loop
            invariant
                idx <= out@.len(),
                forall|j: int|
                    0 <= j < idx ==> spec_stat_le(#[trigger] stat_views(out@)[j], stat_view(x)),
            ensures
                idx <= out@.len(),
                forall|j: int|
                    0 <= j < idx ==> spec_stat_le(#[trigger] stat_views(out@)[j], stat_view(x)),
                idx < out@.len() ==> !spec_stat_le(stat_views(out@)[idx as int], stat_view(x)),
            decreases out@.len() - idx,
        {
            if idx >= out.len() {
                break ;
            }
            let below = stat_le(&out[idx], &x);
            proof {
                assert(stat_views(out@)[idx as int] == stat_view(out@[idx as int]));
            }
            if !below {
                break ;
            }
            idx = idx + 1;
        }
        let ghost out0 = out@;
        out.insert(idx, x);
        proof {
            broadcast use vstd::seq_lib::group_to_multiset_ensures;
            broadcast use vstd::seq_lib::to_multiset_insert;

            assert(stat_views(out@) =~= stat_views(out0).insert(idx as int, stat_view(x)));
            assert(stat_views(out@).to_multiset() == stat_views(out0).to_multiset().insert(
                stat_view(x),
            ));
            // sortedness: records before `idx` are below `x`, records after
            // are not below `x`, hence `x` is below them by totality
            let sv = stat_views(out@);
            assert forall|i: int, j: int|
                0 <= i < j < sv.len() implies spec_stat_le(#[trigger] sv[i], #[trigger] sv[j]) by {
                let vi = if i < idx {
                    stat_views(out0)[i]
                } else if i == idx {
                    stat_view(x)
                } else {
                    stat_views(out0)[i - 1]
                };
                let vj = if j < idx {
                    stat_views(out0)[j]
                } else if j == idx {
                    stat_view(x)
                } else {
                    stat_views(out0)[j - 1]
                };
                assert(sv[i] == vi);
                assert(sv[j] == vj);
                if j < idx || (i < idx && j == idx) {
                } else if i < idx && j > idx {
                    lemma_stat_trans(stat_views(out0)[i], stat_view(x), stat_views(out0)[j - 1]);
                    if idx < out0.len() {
                        lemma_stat_total(stat_view(x), stat_views(out0)[idx as int]);
                        lemma_stat_trans(
                            stat_view(x),
                            stat_views(out0)[idx as int],
                            stat_views(out0)[j - 1],
                        );
                    }
                } else if i == idx {
                    if idx < out0.len() {
                        lemma_stat_total(stat_view(x), stat_views(out0)[idx as int]);
                        lemma_stat_trans(
                            stat_view(x),
                            stat_views(out0)[idx as int],
                            stat_views(out0)[j - 1],
                        );
                    }
                } else {
                }
            }
        }
    }
    proof {
        assert(stat_views(rest@).to_multiset() =~= Multiset::<(Seq<u8>, u64)>::empty()) by {
            broadcast use vstd::seq_lib::group_to_multiset_ensures;

            assert(stat_views(rest@).len() == 0);
        }
        assert(stat_views(out@).to_multiset() =~= all.to_multiset());
    }
    out
}

/// The bytes `STAT ` that open one stat line.
pub open spec fn lit_stat_prefix() -> Seq<u8> {
    seq![83u8, 84u8, 65u8, 84u8, 32u8]
}

/// The wire bytes of the stat lines, in record order, without the closing
/// `END`.
pub open spec fn spec_stat_lines(s: Seq<(Seq<u8>, u64)>) -> Seq<u8>
    decreases s.len(),
{
    if s.len() == 0 {
        Seq::empty()
    } else {
        spec_stat_lines(s.drop_last()) + lit_stat_prefix() + s.last().0 + seq![32u8] + spec_udec(
            s.last().1 as int,
        ) + lit_crlf()
    }
}

/// Format the reply to `stats`: one `STAT <name> <value>\r\n` line per
/// record in the given (sorted) order, closed by `END\r\n`.
pub fn format_stats(stats: &Vec<(Vec<u8>, u64)>) -> (r: Vec<u8>)
    ensures
        r@ == spec_stat_lines(stat_views(stats@)) + lit_end(),
{
    let mut out: Vec<u8> = Vec::new();
    let ghost sv = stat_views(stats@);
    let mut i: usize = 0;
    while i < stats.len()
        invariant
            i <= stats@.len(),
            sv == stat_views(stats@),
            out@ == spec_stat_lines(sv.take(i as int)),
        decreases stats@.len() - i,
    {
        let ghost out0 = out@;
        out.push(83);
        out.push(84);
        out.push(65);
        out.push(84);
        out.push(32);
        proof {
            assert(out@ =~= out0 + lit_stat_prefix());
        }
        extend_bytes(&mut out, stats[i].0.as_slice());
        out.push(32);
        let dec = format_u64(stats[i].1);
        extend_bytes(&mut out, dec.as_slice());
        out.push(13);
        out.push(10);
        proof {
            let t1 = sv.take(i + 1);
            assert(t1.drop_last() =~= sv.take(i as int));
            assert(t1.last() == stat_view(stats@[i as int]));
            assert(out@ =~= spec_stat_lines(t1));
        }
        i = i + 1;
    }
    proof {
        assert(sv.take(sv.len() as int) =~= sv);
    }
    out.push(69);
    out.push(78);
    out.push(68);
    out.push(13);
    out.push(10);
    proof {
        assert(out@ =~= spec_stat_lines(sv) + lit_end());
    }
    out
}

/// The whole reply to `stats`: the records sorted into stat order, formatted
/// as `STAT` lines and closed by `END\r\n`.
pub fn stats_response(stats: Vec<(Vec<u8>, u64)>) -> (r: Vec<u8>)
    ensures
        exists|s: Seq<(Seq<u8>, u64)>|
            spec_sorted_stats(s) && s.to_multiset() == stat_views(stats@).to_multiset() && r@
                == #[trigger] spec_stat_lines(s) + lit_end(),
{
    let ghost input = stat_views(stats@);
    let sorted = sort_stats(stats);
    let r = format_stats(&sorted);
    proof {
        let s = stat_views(sorted@);
        assert(spec_sorted_stats(s) && s.to_multiset() == input.to_multiset() && r@
            == spec_stat_lines(s) + lit_end());
    }
    r
}

} // verus!
