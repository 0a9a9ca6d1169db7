//! Typed responses of the text Memcache protocol and their wire encoding.

use vstd::prelude::*;
use crate::hashtable::EntryView;
use crate::seg::Item;
use crate::cache::spec_item_pair;

verus! {

/// A response to one request.
pub enum MemcacheResponse {
    /// The hits of a `get`/`gets`: one `VALUE` block per entry, then `END`.
    /// `cas` says whether each block carries the entry's CAS counter.
    Values { entries: Vec<Item>, cas: bool },
    /// The write was performed.
    Stored,
    /// The write was not performed.
    NotStored,
    /// The key was removed.
    Deleted,
    /// The key was absent (or expired).
    NotFound,
    /// A `cas` found the key but with a different CAS counter.
    Exists,
}

/// The decimal digits of `n`.
pub open spec fn spec_udec(n: int) -> Seq<u8>
    decreases n when n >= 0
{
    if n < 10 {
        seq![(48 + n) as u8]
    } else {
        spec_udec(n / 10) + seq![(48 + n % 10) as u8]
    }
}

/// Format `n` in decimal.
pub fn format_u64(n: u64) -> (r: Vec<u8>)
    ensures
        r@ == spec_udec(n as int),
    decreases n,
{
    if n < 10 {
        let mut out: Vec<u8> = Vec::new();
        out.push(48 + n as u8);
        proof {
            assert(out@ =~= spec_udec(n as int));
        }
        out
    } else {
        let mut out = format_u64(n / 10);
        out.push(48 + (n % 10) as u8);
        proof {
            assert(out@ =~= spec_udec(n as int));
        }
        out
    }
}

/// The bytes `VALUE ` that open a hit block.
pub open spec fn lit_value_prefix() -> Seq<u8> {
    seq![86u8, 65u8, 76u8, 85u8, 69u8, 32u8]
}

/// The bytes `END\r\n` that close a read response.
pub open spec fn lit_end() -> Seq<u8> {
    seq![69u8, 78u8, 68u8, 13u8, 10u8]
}

/// The bytes `STORED\r\n`.
pub open spec fn lit_stored() -> Seq<u8> {
    seq![83u8, 84u8, 79u8, 82u8, 69u8, 68u8, 13u8, 10u8]
}

/// The bytes `NOT_STORED\r\n`.
pub open spec fn lit_not_stored() -> Seq<u8> {
    seq![78u8, 79u8, 84u8, 95u8, 83u8, 84u8, 79u8, 82u8, 69u8, 68u8, 13u8, 10u8]
}

/// The bytes `DELETED\r\n`.
pub open spec fn lit_deleted() -> Seq<u8> {
    seq![68u8, 69u8, 76u8, 69u8, 84u8, 69u8, 68u8, 13u8, 10u8]
}

/// The bytes `NOT_FOUND\r\n`.
pub open spec fn lit_not_found() -> Seq<u8> {
    seq![78u8, 79u8, 84u8, 95u8, 70u8, 79u8, 85u8, 78u8, 68u8, 13u8, 10u8]
}

/// The bytes `EXISTS\r\n`.
pub open spec fn lit_exists() -> Seq<u8> {
    seq![69u8, 88u8, 73u8, 83u8, 84u8, 83u8, 13u8, 10u8]
}

/// The CRLF line terminator.
pub open spec fn lit_crlf() -> Seq<u8> {
    seq![13u8, 10u8]
}

/// The wire bytes of one hit block:
/// `VALUE <key> <flags> <bytelen>[ <cas>]\r\n<value>\r\n`.
pub open spec fn spec_value_line(k: Seq<u8>, e: EntryView, with_cas: bool) -> Seq<u8> {
    lit_value_prefix() + k + seq![32u8] + spec_udec(e.flags as int) + seq![32u8] + spec_udec(
        e.value.len() as int,
    ) + (if with_cas {
        seq![32u8] + spec_udec(e.cas as int)
    } else {
        Seq::empty()
    }) + lit_crlf() + e.value + lit_crlf()
}

/// The wire bytes of the hit blocks of a read response, in order, without the
/// closing `END`.
pub open spec fn spec_value_lines(hits: Seq<(Seq<u8>, EntryView)>, with_cas: bool) -> Seq<u8>
    decreases hits.len(),
{
    if hits.len() == 0 {
        Seq::empty()
    } else {
        spec_value_lines(hits.drop_last(), with_cas) + spec_value_line(
            hits.last().0,
            hits.last().1,
            with_cas,
        )
    }
}

/// The wire bytes of a whole response.
pub open spec fn spec_compose(r: MemcacheResponse) -> Seq<u8> {
    match r {
        MemcacheResponse::Values { entries, cas } => spec_value_lines(
            entries@.map_values(|it: Item| spec_item_pair(it)),
            cas,
        ) + lit_end(),
        MemcacheResponse::Stored => lit_stored(),
        MemcacheResponse::NotStored => lit_not_stored(),
        MemcacheResponse::Deleted => lit_deleted(),
        MemcacheResponse::NotFound => lit_not_found(),
        MemcacheResponse::Exists => lit_exists(),
    }
}

/// Append every byte of `b` to `out`.
pub fn extend_bytes(out: &mut Vec<u8>, b: &[u8])
    ensures
        final(out)@ == old(out)@ + b@,
{
    let mut i: usize = 0;
    while i < b.len()
        invariant
            i <= b@.len(),
            out@ == old(out)@ + b@.take(i as int),
        decreases b@.len() - i,
    {
        out.push(b[i]);
        proof {
            assert(old(out)@ + b@.take(i + 1) =~= (old(out)@ + b@.take(i as int)).push(
                b@[i as int],
            ));
        }
        i = i + 1;
    }
    proof {
        assert(b@.take(b@.len() as int) =~= b@);
    }
}

/// Write a whole response into bytes, exactly as `spec_compose` says.
#[verifier::rlimit(100)]
pub fn compose_response(r: &MemcacheResponse) -> (out: Vec<u8>)
    ensures
        out@ == spec_compose(*r),
{
    let mut out: Vec<u8> = Vec::new();
    match r {
        MemcacheResponse::Values { entries, cas } => {
            let with_cas = *cas;
            let ghost hits = entries@.map_values(|it: Item| spec_item_pair(it));
            let mut i: usize = 0;
            while i < entries.len()
                invariant
                    i <= entries@.len(),
                    hits == entries@.map_values(|it: Item| spec_item_pair(it)),
                    out@ == spec_value_lines(hits.take(i as int), with_cas),
                decreases entries@.len() - i,
            {
                let it = &entries[i];
                let ghost out0 = out@;
                out.push(86);
                out.push(65);
                out.push(76);
                out.push(85);
                out.push(69);
                out.push(32);
                proof {
                    assert(out@ =~= out0 + lit_value_prefix());
                }
                extend_bytes(&mut out, it.key.as_slice());
                out.push(32);
                proof {
                    assert(out@ =~= out0 + lit_value_prefix() + it.key@ + seq![32u8]);
                }
                let flags_dec = format_u64(it.flags as u64);
                extend_bytes(&mut out, flags_dec.as_slice());
                out.push(32);
                let len_dec = format_u64(it.value.len() as u64);
                extend_bytes(&mut out, len_dec.as_slice());
                if with_cas {
                    out.push(32);
                    let cas_dec = format_u64(it.cas);
                    extend_bytes(&mut out, cas_dec.as_slice());
                }
                out.push(13);
                out.push(10);
                extend_bytes(&mut out, it.value.as_slice());
                out.push(13);
                out.push(10);
                proof {
                    let pair = spec_item_pair(entries@[i as int]);
                    assert(out@ =~= out0 + spec_value_line(pair.0, pair.1, with_cas));
                    let t1 = hits.take(i + 1);
                    assert(t1.drop_last() =~= hits.take(i as int));
                    assert(t1.last() == pair);
                    assert(out@ =~= spec_value_lines(t1, with_cas));
                }
                i = i + 1;
            }
            proof {
                assert(hits.take(hits.len() as int) =~= hits);
            }
            out.push(69);
            out.push(78);
            out.push(68);
            out.push(13);
            out.push(10);
            proof {
                assert(out@ =~= spec_value_lines(hits, with_cas) + lit_end());
            }
        },
        MemcacheResponse::Stored => {
            out.push(83);
            out.push(84);
            out.push(79);
            out.push(82);
            out.push(69);
            out.push(68);
            out.push(13);
            out.push(10);
            proof {
                assert(out@ =~= lit_stored());
            }
        },
        MemcacheResponse::NotStored => {
            out.push(78);
            out.push(79);
            out.push(84);
            out.push(95);
            out.push(83);
            out.push(84);
            out.push(79);
            out.push(82);
            out.push(69);
            out.push(68);
            out.push(13);
            out.push(10);
            proof {
                assert(out@ =~= lit_not_stored());
            }
        },
        MemcacheResponse::Deleted => {
            out.push(68);
            out.push(69);
            out.push(76);
            out.push(69);
            out.push(84);
            out.push(69);
            out.push(68);
            out.push(13);
            out.push(10);
            proof {
                assert(out@ =~= lit_deleted());
            }
        },
        MemcacheResponse::NotFound => {
            out.push(78);
            out.push(79);
            out.push(84);
            out.push(95);
            out.push(70);
            out.push(79);
            out.push(85);
            out.push(78);
            out.push(68);
            out.push(13);
            out.push(10);
            proof {
                assert(out@ =~= lit_not_found());
            }
        },
        MemcacheResponse::Exists => {
            out.push(69);
            out.push(88);
            out.push(73);
            out.push(83);
            out.push(84);
            out.push(83);
            out.push(13);
            out.push(10);
            proof {
                assert(out@ =~= lit_exists());
            }
        },
    }
    out
}

} // verus!
