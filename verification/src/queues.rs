//! Routing fabric from one set of thread endpoints to another.
//!
//! Each of the `n_senders` endpoints on the sending side has one bounded FIFO
//! ring to each of the `n_receivers` endpoints on the receiving side. A pair
//! of fabrics, one per direction, connects two thread sets symmetrically.
//! Items are tagged with the sending endpoint's id so a response can be
//! steered back 1-to-1. A successful send latches a wake flag for the
//! receiving peer; `wake` hands back the latched peers exactly once per
//! batch.
//!
//! This structure models the rings and the routing decisions; the actual
//! cross-thread transport and waker delivery are the caller's.

use vstd::prelude::*;

verus! {

/// Capacity of each ring.
pub const QUEUE_CAPACITY: usize = 1024;

/// A payload tagged with the id of the endpoint that sent it.
pub struct TrackedItem<T> {
    /// Id of the sending endpoint.
    pub sender: usize,
    /// The payload.
    pub inner: T,
}

impl<T> TrackedItem<T> {
    /// Id of the endpoint that sent this item.
    pub fn sender(&self) -> (r: usize)
        ensures
            r == self.sender,
    {
        self.sender
    }

    /// Take the payload out.
    pub fn into_inner(self) -> (r: T)
        ensures
            r == self.inner,
    {
        self.inner
    }
}

/// One direction of the fabric: `rings[s][d]` is the FIFO ring from sending
/// endpoint `s` to receiving endpoint `d`, and `wakes[s][d]` says `s` owes
/// `d` a wake.
pub struct Queues<T> {
    /// The rings, front of each FIFO at index 0.
    pub rings: Vec<Vec<Vec<TrackedItem<T>>>>,
    /// The latched wake flags.
    pub wakes: Vec<Vec<bool>>,
    /// Number of receiving endpoints; the length of every row.
    pub n_receivers: usize,
}

impl<T> Queues<T> {
    /// Number of sending endpoints.
    pub open spec fn n_s(self) -> int {
        self.rings.len() as int
    }

    /// Number of receiving endpoints.
    pub open spec fn n_r(self) -> int {
        self.n_receivers as int
    }

    /// Well-formedness: square dimensions, bounded rings, and every item
    /// stamped with its true sender.
    pub open spec fn wf(self) -> bool {
        &&& self.wakes.len() == self.n_s()
        &&& forall|s: int|
            0 <= s < self.n_s() ==> (#[trigger] self.rings@[s])@.len() == self.n_r()
        &&& forall|s: int|
            0 <= s < self.n_s() ==> (#[trigger] self.wakes@[s])@.len() == self.n_r()
        &&& forall|s: int, d: int|
            0 <= s < self.n_s() && 0 <= d < self.n_r() ==> (#[trigger] self.rings@[s]@[d])@.len()
                <= QUEUE_CAPACITY
        &&& forall|s: int, d: int, i: int|
            0 <= s < self.n_s() && 0 <= d < self.n_r() && 0 <= i < self.rings@[s]@[d]@.len() ==> (
            #[trigger] self.rings@[s]@[d]@[i]).sender == s
    }

    /// A fabric of `n_senders` by `n_receivers` empty rings, no wakes owed.
    pub fn new(n_senders: usize, n_receivers: usize) -> (r: Queues<T>)
        ensures
            r.wf(),
            r.n_s() == n_senders,
            r.n_r() == n_receivers,
            forall|s: int, d: int|
                0 <= s < n_senders && 0 <= d < n_receivers ==> (#[trigger] r.rings@[s]@[d])@.len()
                    == 0,
    {
        let mut rings: Vec<Vec<Vec<TrackedItem<T>>>> = Vec::new();
        let mut wakes: Vec<Vec<bool>> = Vec::new();
        let mut s: usize = 0;
        while s < n_senders
            invariant
                s <= n_senders,
                rings.len() == s,
                wakes.len() == s,
                forall|i: int| 0 <= i < s ==> (#[trigger] rings@[i])@.len() == n_receivers,
                forall|i: int| 0 <= i < s ==> (#[trigger] wakes@[i])@.len() == n_receivers,
                forall|i: int, j: int|
                    0 <= i < s && 0 <= j < n_receivers ==> (#[trigger] rings@[i]@[j])@.len() == 0,
            decreases n_senders - s,
        {
            let mut row: Vec<Vec<TrackedItem<T>>> = Vec::new();
            let mut flags: Vec<bool> = Vec::new();
            let mut d: usize = 0;
            while d < n_receivers
                invariant
                    d <= n_receivers,
                    row.len() == d,
                    flags.len() == d,
                    forall|j: int| 0 <= j < d ==> (#[trigger] row@[j])@.len() == 0,
                decreases n_receivers - d,
            {
                row.push(Vec::new());
                flags.push(false);
                d = d + 1;
            }
            rings.push(row);
            wakes.push(flags);
            s = s + 1;
        }
        Queues { rings, wakes, n_receivers }
    }

    /// Targeted 1:1 send from endpoint `s` to peer `d`: append to the ring
    /// and latch the wake flag, or hand the item back when the ring is full.
    pub fn try_send_to(&mut self, s: usize, d: usize, item: T) -> (r: Result<(), T>)
        requires
            old(self).wf(),
            s < old(self).n_s(),
            d < old(self).n_r(),
        ensures
            final(self).wf(),
            final(self).n_s() == old(self).n_s(),
            final(self).n_r() == old(self).n_r(),
            match r {
                Result::Ok(()) => {
                    &&& old(self).rings@[s as int]@[d as int]@.len() < QUEUE_CAPACITY
                    &&& final(self).rings@[s as int]@[d as int]@ == old(self).rings@[s as int]@[d as int]@ + seq![TrackedItem { sender: s as usize, inner: item }]
                    &&& forall|s2: int, d2: int|
                        0 <= s2 < old(self).n_s() && 0 <= d2 < old(self).n_r() && !(s2 == s && d2
                            == d) ==> (#[trigger] final(self).rings@[s2]@[d2]) == old(
                            self,
                        ).rings@[s2]@[d2]
                    &&& final(self).wakes@[s as int]@[d as int]
                    &&& forall|s2: int, d2: int|
                        0 <= s2 < old(self).n_s() && 0 <= d2 < old(self).n_r() && !(s2 == s && d2
                            == d) ==> (#[trigger] final(self).wakes@[s2]@[d2]) == old(
                            self,
                        ).wakes@[s2]@[d2]
                },
                Result::Err(back) => {
                    &&& old(self).rings@[s as int]@[d as int]@.len() == QUEUE_CAPACITY
                    &&& back == item
                    &&& *final(self) == *old(self)
                },
            },
    {
        if self.rings[s][d].len() >= QUEUE_CAPACITY {
            return Err(item);
        }
        let tracked_item = TrackedItem { sender: s, inner: item };
        self.rings[s][d].push(tracked_item);
        self.wakes[s][d] = true;
        proof {
            assert(self.wf());
        }
        Ok(())
    }

    /// Balanced 1:N send: the caller draws `d_choice` (uniformly, from its
    /// own randomness) and the item goes to that peer.
    pub fn try_send_any(&mut self, s: usize, d_choice: usize, item: T) -> (r: Result<(), T>)
        requires
            old(self).wf(),
            s < old(self).n_s(),
            d_choice < old(self).n_r(),
        ensures
            final(self).wf(),
            final(self).n_s() == old(self).n_s(),
            final(self).n_r() == old(self).n_r(),
            match r {
                Result::Ok(()) => final(self).rings@[s as int]@[d_choice as int]@ == old(
                    self,
                ).rings@[s as int]@[d_choice as int]@ + seq![
                    TrackedItem { sender: s as usize, inner: item },
                ],
                Result::Err(back) => back == item && *final(self) == *old(self),
            },
    {
        self.try_send_to(s, d_choice, item)
    }

    /// Receive at endpoint `d`: poll the rings from every sending peer
    /// starting at offset `start` (the caller's fairness draw) and pop the
    /// first nonempty ring's front item. Fails exactly when every ring into
    /// `d` is empty.
    pub fn try_recv(&mut self, d: usize, start: usize) -> (r: Result<TrackedItem<T>, ()>)
        requires
            old(self).wf(),
            d < old(self).n_r(),
            old(self).n_s() > 0,
            start < old(self).n_s(),
        ensures
            final(self).wf(),
            final(self).n_s() == old(self).n_s(),
            final(self).n_r() == old(self).n_r(),
            final(self).wakes == old(self).wakes,
            match r {
                Result::Ok(item) => exists|s: int|
                    0 <= s < old(self).n_s() && (#[trigger] old(self).rings@[s]@[d as int])@.len()
                        > 0 && item == old(self).rings@[s]@[d as int]@[0] && item.sender == s
                        && final(self).rings@[s]@[d as int]@ == old(self).rings@[s]@[d as int]@.drop_first() && (forall|s2: int, d2: int|
                        0 <= s2 < old(self).n_s() && 0 <= d2 < old(self).n_r() && !(s2 == s && d2
                            == d) ==> (#[trigger] final(self).rings@[s2]@[d2]) == old(
                            self,
                        ).rings@[s2]@[d2]),
                Result::Err(()) => *final(self) == *old(self) && forall|s: int|
                    0 <= s < old(self).n_s() ==> (#[trigger] old(self).rings@[s]@[d as int])@.len()
                        == 0,
            },
    {
        let n_s = self.rings.len();
        let mut offset: usize = 0;
        while offset < n_s
            invariant
                self.wf(),
                *self == *old(self),
                d < self.n_r(),
                start < n_s,
                n_s == self.n_s(),
                offset <= n_s,
                forall|o: int|
                    0 <= o < offset ==> (#[trigger] self.rings@[(start + o) % (n_s as int)]@[d as int])@.len() == 0,
            decreases n_s - offset,
        {
            let s = ((start as u128 + offset as u128) % (n_s as u128)) as usize;
            proof {
                assert(s == (start + offset) as int % (n_s as int));
            }
            if self.rings[s][d].len() > 0 {
                let item = self.rings[s][d].remove(0);
                proof {
                    assert(self.rings@[s as int]@[d as int]@ == old(self).rings@[s as int]@[d as int]@.drop_first());
                    assert(self.wf());
                }
                return Ok(item);
            }
            offset = offset + 1;
        }
        proof {
            assert forall|s: int|
                0 <= s < self.n_s() implies (#[trigger] self.rings@[s]@[d as int])@.len() == 0 by {
                let o = if s >= start {
                    s - start
                } else {
                    s + n_s - start
                };
                assert((start + o) % (n_s as int) == s) by (nonlinear_arith)
                    requires
                        0 <= s < n_s,
                        0 <= start < n_s,
                        o == (if s >= start {
                            s - start
                        } else {
                            s + n_s - start
                        }),
                ;
                assert(self.rings@[(start + o) % (n_s as int)]@[d as int]@.len() == 0);
            }
        }
        Err(())
    }

    /// Drain every ring into endpoint `d`, peer by peer in id order,
    /// appending to `buf`. Returns the number of items received; afterwards
    /// every ring into `d` is empty.
    pub fn try_recv_all(&mut self, d: usize, buf: &mut Vec<TrackedItem<T>>) -> (received: usize)
        requires
            old(self).wf(),
            d < old(self).n_r(),
        ensures
            final(self).wf(),
            final(self).n_s() == old(self).n_s(),
            final(self).n_r() == old(self).n_r(),
            final(buf)@ == old(buf)@ + spec_pending(*old(self), d as int, old(self).n_s()),
            final(buf)@.len() == old(buf)@.len() + received,
            forall|s: int|
                0 <= s < old(self).n_s() ==> (#[trigger] final(self).rings@[s]@[d as int])@.len()
                    == 0,
            forall|s2: int, d2: int|
                0 <= s2 < old(self).n_s() && 0 <= d2 < old(self).n_r() && d2 != d ==> (
                #[trigger] final(self).rings@[s2]@[d2]) == old(self).rings@[s2]@[d2],
    {
        let n_s = self.rings.len();
        let init_len = buf.len();
        let mut s: usize = 0;
        proof {
            assert(buf@ =~= old(buf)@ + spec_pending(*old(self), d as int, 0));
        }
        while s < n_s
            invariant
                self.wf(),
                d < self.n_r(),
                n_s == self.n_s(),
                s <= n_s,
                self.n_s() == old(self).n_s(),
                self.n_r() == old(self).n_r(),
                init_len == old(buf)@.len(),
                buf@ == old(buf)@ + spec_pending(*old(self), d as int, s as int),
                forall|s2: int|
                    0 <= s2 < s ==> (#[trigger] self.rings@[s2]@[d as int])@.len() == 0,
                forall|s2: int, d2: int|
                    0 <= s2 < self.n_s() && 0 <= d2 < self.n_r() && !(d2 == d && s2 < s) ==> (
                    #[trigger] self.rings@[s2]@[d2]) == old(self).rings@[s2]@[d2],
            decreases n_s - s,
        {
            let ghost ring0 = old(self).rings@[s as int]@[d as int]@;
            while self.rings[s][d].len() > 0
                invariant
                    self.wf(),
                    s < self.n_s(),
                    d < self.n_r(),
                    n_s == self.n_s(),
                    self.n_s() == old(self).n_s(),
                    self.n_r() == old(self).n_r(),
                    init_len == old(buf)@.len(),
                    ring0 == old(self).rings@[s as int]@[d as int]@,
                    self.rings@[s as int]@[d as int]@.len() <= ring0.len(),
                    self.rings@[s as int]@[d as int]@ == ring0.skip(
                        ring0.len() - self.rings@[s as int]@[d as int]@.len(),
                    ),
                    buf@ == old(buf)@ + spec_pending(*old(self), d as int, s as int) + ring0.take(
                        ring0.len() - self.rings@[s as int]@[d as int]@.len(),
                    ),
                    forall|s2: int|
                        0 <= s2 < s ==> (#[trigger] self.rings@[s2]@[d as int])@.len() == 0,
                    forall|s2: int, d2: int|
                        0 <= s2 < self.n_s() && 0 <= d2 < self.n_r() && !(d2 == d && s2 <= s) ==> (
                        #[trigger] self.rings@[s2]@[d2]) == old(self).rings@[s2]@[d2],
                decreases self.rings@[s as int]@[d as int]@.len(),
            {
                let ghost k = ring0.len() - self.rings@[s as int]@[d as int]@.len();
                proof {
                    assert(self.rings@[s as int]@[d as int]@ == ring0.skip(k));
                    assert(0 <= k < ring0.len());
                }
                let item = self.rings[s][d].remove(0);
                buf.push(item);
                proof {
                    assert(self.wf());
                    assert(self.rings@[s as int]@[d as int]@ == ring0.skip(k).remove(0));
                    assert forall|i: int|
                        0 <= i < ring0.skip(k).remove(0).len() implies ring0.skip(k).remove(0)[i]
                        == ring0.skip(k + 1)[i] by {
                        assert(ring0.skip(k).remove(0)[i] == ring0.skip(k)[i + 1]);
                    }
                    assert(self.rings@[s as int]@[d as int]@ =~= ring0.skip(k + 1));
                    assert(item == ring0.skip(k)[0]);
                    assert(ring0.take(k + 1) =~= ring0.take(k).push(ring0[k]));
                    assert(buf@ =~= old(buf)@ + spec_pending(*old(self), d as int, s as int)
                        + ring0.take(k + 1));
                }
            }
            proof {
                assert(ring0.take(ring0.len() as int) =~= ring0);
                assert(buf@ =~= old(buf)@ + spec_pending(*old(self), d as int, s + 1));
            }
            s = s + 1;
        }
        buf.len() - init_len
    }

    /// Flush the latched wake flags of endpoint `s`: the ids of the peers
    /// owed a wake, in ascending order, with the flags cleared. A second
    /// call before further sends returns nothing: waking is idempotent per
    /// batch.
    pub fn wake(&mut self, s: usize) -> (peers: Vec<usize>)
        requires
            old(self).wf(),
            s < old(self).n_s(),
        ensures
            final(self).wf(),
            final(self).n_s() == old(self).n_s(),
            final(self).n_r() == old(self).n_r(),
            final(self).rings == old(self).rings,
            forall|d: int|
                0 <= d < old(self).n_r() ==> !(#[trigger] final(self).wakes@[s as int]@[d]),
            forall|s2: int|
                0 <= s2 < old(self).n_s() && s2 != s ==> (#[trigger] final(self).wakes@[s2]) == old(
                    self,
                ).wakes@[s2],
            forall|i: int|
                0 <= i < peers@.len() ==> 0 <= #[trigger] peers@[i] < old(self).n_r() && old(
                    self,
                ).wakes@[s as int]@[peers@[i] as int],
            forall|d: int|
                0 <= d < old(self).n_r() && old(self).wakes@[s as int]@[d] ==> exists|i: int|
                    0 <= i < peers@.len() && #[trigger] peers@[i] == d,
    {
        let n_r = self.n_receivers;
        let mut peers: Vec<usize> = Vec::new();
        let mut d: usize = 0;
        while d < n_r
            invariant
                self.wf(),
                s < self.n_s(),
                n_r == self.n_r(),
                d <= n_r,
                self.rings == old(self).rings,
                self.n_s() == old(self).n_s(),
                self.n_r() == old(self).n_r(),
                forall|j: int| 0 <= j < d ==> !(#[trigger] self.wakes@[s as int]@[j]),
                forall|j: int|
                    d <= j < n_r ==> (#[trigger] self.wakes@[s as int]@[j]) == old(
                        self,
                    ).wakes@[s as int]@[j],
                forall|s2: int|
                    0 <= s2 < self.n_s() && s2 != s ==> (#[trigger] self.wakes@[s2]) == old(
                        self,
                    ).wakes@[s2],
                forall|i: int|
                    0 <= i < peers@.len() ==> 0 <= #[trigger] peers@[i] < n_r && old(
                        self,
                    ).wakes@[s as int]@[peers@[i] as int],
                forall|j: int|
                    0 <= j < d && old(self).wakes@[s as int]@[j] ==> exists|i: int|
                        0 <= i < peers@.len() && #[trigger] peers@[i] == j,
            decreases n_r - d,
        {
            let ghost peers0 = peers@;
            if self.wakes[s][d] {
                peers.push(d);
                self.wakes[s][d] = false;
                proof {
                    assert forall|j: int|
                        0 <= j < d + 1 && old(self).wakes@[s as int]@[j] implies exists|i: int|
                        0 <= i < peers@.len() && #[trigger] peers@[i] == j by {
                        if j < d {
                            let i0 = choose|i: int|
                                0 <= i < peers0.len() && #[trigger] peers0[i] == j;
                            assert(peers@[i0] == j);
                        } else {
                            assert(peers@[peers@.len() - 1] == j);
                        }
                    }
                }
            } else {
                proof {
                    assert forall|j: int|
                        0 <= j < d + 1 && old(self).wakes@[s as int]@[j] implies exists|i: int|
                        0 <= i < peers@.len() && #[trigger] peers@[i] == j by {
                        if j < d {
                            let i0 = choose|i: int|
                                0 <= i < peers0.len() && #[trigger] peers0[i] == j;
                            assert(peers@[i0] == j);
                        }
                    }
                }
            }
            d = d + 1;
        }
        peers
    }
}

impl<T: Copy> Queues<T> {
    /// Broadcast `item` from endpoint `s` to every peer: each ring with room
    /// gets exactly one copy and its wake flag is latched; the send fails
    /// (best-effort, without unwinding) when any ring was full.
    pub fn try_send_all(&mut self, s: usize, item: T) -> (r: Result<(), T>)
        requires
            old(self).wf(),
            s < old(self).n_s(),
        ensures
            final(self).wf(),
            final(self).n_s() == old(self).n_s(),
            final(self).n_r() == old(self).n_r(),
            forall|d: int|
                0 <= d < old(self).n_r() && old(self).rings@[s as int]@[d]@.len() < QUEUE_CAPACITY
                    ==> (#[trigger] final(self).rings@[s as int]@[d])@ == old(self).rings@[s as int]@[d]@ + seq![TrackedItem { sender: s as usize, inner: item }],
            forall|d: int|
                0 <= d < old(self).n_r() && old(self).rings@[s as int]@[d]@.len() == QUEUE_CAPACITY
                    ==> (#[trigger] final(self).rings@[s as int]@[d]) == old(self).rings@[s as int]@[d],
            forall|s2: int, d2: int|
                0 <= s2 < old(self).n_s() && 0 <= d2 < old(self).n_r() && s2 != s ==> (
                #[trigger] final(self).rings@[s2]@[d2]) == old(self).rings@[s2]@[d2],
            r is Ok <==> (forall|d: int|
                0 <= d < old(self).n_r() ==> (#[trigger] old(self).rings@[s as int]@[d])@.len()
                    < QUEUE_CAPACITY),
    {
        let n_r = self.n_receivers;
        let mut full = false;
        let mut d: usize = 0;
        while d < n_r
            invariant
                self.wf(),
                s < self.n_s(),
                n_r == self.n_r(),
                d <= n_r,
                self.n_s() == old(self).n_s(),
                self.n_r() == old(self).n_r(),
                forall|j: int|
                    0 <= j < d && old(self).rings@[s as int]@[j]@.len() < QUEUE_CAPACITY ==> (
                    #[trigger] self.rings@[s as int]@[j])@ == old(self).rings@[s as int]@[j]@
                        + seq![TrackedItem { sender: s as usize, inner: item }],
                forall|j: int|
                    0 <= j < d && old(self).rings@[s as int]@[j]@.len() == QUEUE_CAPACITY ==> (
                    #[trigger] self.rings@[s as int]@[j]) == old(self).rings@[s as int]@[j],
                forall|j: int|
                    d <= j < n_r ==> (#[trigger] self.rings@[s as int]@[j]) == old(self).rings@[s as int]@[j],
                forall|s2: int, d2: int|
                    0 <= s2 < self.n_s() && 0 <= d2 < self.n_r() && s2 != s ==> (
                    #[trigger] self.rings@[s2]@[d2]) == old(self).rings@[s2]@[d2],
                full == !(forall|j: int|
                    0 <= j < d ==> (#[trigger] old(self).rings@[s as int]@[j])@.len()
                        < QUEUE_CAPACITY),
            decreases n_r - d,
        {
            if self.rings[s][d].len() >= QUEUE_CAPACITY {
                full = true;
            } else {
                let tracked_item = TrackedItem { sender: s, inner: item };
                self.rings[s][d].push(tracked_item);
                self.wakes[s][d] = true;
                proof {
                    assert(self.wf());
                }
            }
            d = d + 1;
        }
        if full {
            Err(item)
        } else {
            Ok(())
        }
    }
}

/// Everything pending for receiving endpoint `d` from the senders below
/// `s_upto`, in sender order, each ring front first.
pub open spec fn spec_pending<T>(q: Queues<T>, d: int, s_upto: int) -> Seq<TrackedItem<T>>
    decreases s_upto,
{
    if s_upto <= 0 {
        Seq::empty()
    } else {
        spec_pending(q, d, s_upto - 1) + q.rings@[s_upto - 1]@[d]@
    }
}

/// Queue fan-out delivers exactly once per peer: after a broadcast of `x`
/// from endpoint `s` into previously empty rings, every receiving peer sees
/// exactly one pending item, `x` stamped with sender `s`; popping it leaves
/// the peer's rings empty, so a second receive yields nothing.
pub proof fn lemma_fanout_exactly_once<T>(q0: Queues<T>, q1: Queues<T>, s: int, x: T)
    requires
        q0.wf(),
        q1.wf(),
        0 <= s < q0.n_s(),
        q1.n_s() == q0.n_s(),
        q1.n_r() == q0.n_r(),
        forall|s2: int, d: int|
            0 <= s2 < q0.n_s() && 0 <= d < q0.n_r() ==> (#[trigger] q0.rings@[s2]@[d])@.len()
                == 0,
        forall|d: int|
            0 <= d < q0.n_r() ==> (#[trigger] q1.rings@[s]@[d])@ == q0.rings@[s]@[d]@ + seq![
                TrackedItem { sender: s as usize, inner: x },
            ],
        forall|s2: int, d: int|
            0 <= s2 < q0.n_s() && 0 <= d < q0.n_r() && s2 != s ==> (#[trigger] q1.rings@[s2]@[d])
                == q0.rings@[s2]@[d],
    ensures
        forall|d: int, i: int|
            0 <= d < q1.n_r() && 0 <= i < q1.n_s() && (#[trigger] q1.rings@[i]@[d])@.len() > 0
                ==> i == s && q1.rings@[i]@[d]@ =~= seq![
                TrackedItem { sender: s as usize, inner: x },
            ],
{
    assert forall|d: int, i: int|
        0 <= d < q1.n_r() && 0 <= i < q1.n_s() && (#[trigger] q1.rings@[i]@[d])@.len() > 0 implies
        i == s && q1.rings@[i]@[d]@ =~= seq![TrackedItem { sender: s as usize, inner: x }] by {
        if i != s {
            assert(q1.rings@[i]@[d] == q0.rings@[i]@[d]);
            assert(q0.rings@[i]@[d]@.len() == 0);
        } else {
            assert(q1.rings@[s]@[d]@ == q0.rings@[s]@[d]@ + seq![
                TrackedItem { sender: s as usize, inner: x },
            ]);
            assert(q0.rings@[s]@[d]@.len() == 0);
        }
    }
}

} // verus!
