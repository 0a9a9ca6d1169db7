//! Laws of the storage facade, stated and proved over the abstract contents
//! map that the facade's contracts use.

use vstd::prelude::*;
use crate::cache::{
    SegCache, spec_expire_at, spec_live, spec_next_cas, spec_stored_entry, spec_hits,
};
use crate::hashtable::EntryView;
use crate::protocol::MemcacheEntry;

verus! {

/// One client-visible operation on a single key, at the level of the
/// abstract value it leaves behind. A successful `set` is `Store`, a
/// successful `delete` is `Erase`, and a `get` is `Fetch`.
pub enum KeyOp {
    /// A successful unconditional write of this value.
    Store { value: Seq<u8> },
    /// A successful removal.
    Erase,
    /// A read; leaves the key unchanged.
    Fetch,
}

/// The value held by one key after applying `ops` in order, starting from
/// `v0`. This mirrors the facade contracts: `set` makes the contents map hold
/// the written value under the key, `delete` removes the key, and `get` does
/// not change it.
pub open spec fn apply_key_ops(v0: Option<Seq<u8>>, ops: Seq<KeyOp>) -> Option<Seq<u8>>
    decreases ops.len(),
{
    if ops.len() == 0 {
        v0
    } else {
        match ops.last() {
            KeyOp::Store { value } => Option::Some(value),
            KeyOp::Erase => Option::None,
            KeyOp::Fetch => apply_key_ops(v0, ops.drop_last()),
        }
    }
}

/// The value of the most recent `Store` that is not followed by an `Erase`,
/// or `None` after such an `Erase`, or the initial value when neither exists.
pub open spec fn last_written(v0: Option<Seq<u8>>, ops: Seq<KeyOp>) -> Option<Seq<u8>>
    decreases ops.len(),
{
    if ops.len() == 0 {
        v0
    } else {
        match ops.last() {
            KeyOp::Store { value } => Option::Some(value),
            KeyOp::Erase => Option::None,
            KeyOp::Fetch => last_written(v0, ops.drop_last()),
        }
    }
}

/// For any sequence of single-key `set`/`delete`/`get` operations, the value
/// the key finally holds — which is what `get` returns, by `get`'s contract —
/// is the value of the most recent successful `set` not followed by a
/// successful `delete`.
pub proof fn lemma_get_returns_last_store(v0: Option<Seq<u8>>, ops: Seq<KeyOp>)
    ensures
        apply_key_ops(v0, ops) == last_written(v0, ops),
    decreases ops.len(),
{
    if ops.len() > 0 {
        lemma_get_returns_last_store(v0, ops.drop_last());
    }
}

/// `replace` succeeds exactly when `add` of the same entry would have failed
/// at the moment of the call (for an entry that can be stored at all): the
/// two success conditions from the facade contracts are complements.
pub proof fn lemma_replace_succeeds_iff_add_would_fail(c: SegCache, e: MemcacheEntry, now: u32)
    requires
        c.spec_can_store(e.key@.len() as int, e.value@.len() as int, e.ttl),
    ensures
        (spec_live(c.contents(), e.key@, now) && c.spec_can_store(
            e.key@.len() as int,
            e.value@.len() as int,
            e.ttl,
        )) <==> !(!spec_live(c.contents(), e.key@, now) && c.spec_can_store(
            e.key@.len() as int,
            e.value@.len() as int,
            e.ttl,
        )),
{
}

/// The CAS counter is strictly increasing per key: the entry stored by any
/// successful mutation (`set`, `add`, `replace`, `cas`) carries a CAS counter
/// strictly greater than the key's previous one, as long as the counter has
/// not saturated. The counter saturates at `u64::MAX`, where strictness
/// necessarily stops.
pub proof fn lemma_cas_strictly_increasing(
    m: Map<Seq<u8>, EntryView>,
    e: MemcacheEntry,
    now: u32,
)
    requires
        m.contains_key(e.key@),
        m[e.key@].cas < u64::MAX,
    ensures
        spec_stored_entry(m, e, now).cas > m[e.key@].cas,
{
}

/// A fresh key starts with a positive CAS counter, so counters of stored
/// entries are always at least 1.
pub proof fn lemma_cas_positive(m: Map<Seq<u8>, EntryView>, k: Seq<u8>)
    ensures
        spec_next_cas(m, k) >= 1,
{
}

/// A key stored at tick `t0` with a (finite, positive) TTL shorter than
/// `delta` is not live once the clock has advanced by `delta`, so `get` and
/// every conditional write treat it as absent; by the sweep's contract an
/// `expire` sweep only ever removes such non-live keys.
pub proof fn lemma_expired_key_not_returned(
    m: Map<Seq<u8>, EntryView>,
    k: Seq<u8>,
    t0: u32,
    ttl: u32,
    delta: u32,
)
    requires
        m.contains_key(k),
        m[k].expire_at == spec_expire_at(Option::Some(ttl), t0),
        0 < ttl < delta,
        t0 + delta <= u32::MAX,
    ensures
        !spec_live(m, k, (t0 + delta) as u32),
{
    assert(m[k].expire_at == t0 + ttl);
}

/// A key that is not live contributes no hit to a `get`: the hits of a batch
/// never include it.
pub proof fn lemma_not_live_not_hit(
    m: Map<Seq<u8>, EntryView>,
    keys: Seq<Seq<u8>>,
    now: u32,
    k: Seq<u8>,
)
    requires
        !spec_live(m, k, now),
    ensures
        forall|i: int| 0 <= i < spec_hits(m, keys, now).len() ==> (#[trigger] spec_hits(
            m,
            keys,
            now,
        )[i]).0 != k,
    decreases keys.len(),
{
    if keys.len() > 0 {
        lemma_not_live_not_hit(m, keys.drop_last(), now, k);
        let pre = spec_hits(m, keys.drop_last(), now);
        let all = spec_hits(m, keys, now);
        assert forall|i: int| 0 <= i < all.len() implies (#[trigger] all[i]).0 != k by {
            if i < pre.len() {
                assert(all[i] == pre[i]);
            } else {
                assert(spec_live(m, keys.last(), now));
                assert(all[i].0 == keys.last());
            }
        }
    }
}

} // verus!
