//! Fixed-capacity ring of order events. The matcher produces records at the
//! tail; settlement consumes them from the head; a write into a full ring
//! overwrites the oldest record. On disk each record takes the 65-byte
//! layout of [`crate::codec`]; in memory the ring holds the typed records.
//!
//! `head` and `tail` are free-running counters; a record's slot is its
//! counter value modulo the capacity. Whenever `head` passes the capacity,
//! both counters are reduced by it, which leaves every slot and the length
//! `tail - head` unchanged and keeps the counters small.
use crate::errors::ErrorCode;
use crate::state::OrderEvent;
use vstd::arithmetic::div_mod::lemma_fundamental_div_mod;
use vstd::arithmetic::div_mod::lemma_mod_division_less_than_divisor;
use vstd::arithmetic::div_mod::lemma_mod_sub_multiples_vanish;
use vstd::arithmetic::div_mod::lemma_small_mod;
use vstd::prelude::*;

verus! {

/// Largest accepted ring capacity; keeps the counter arithmetic inside
/// `u32`.
pub const MAX_QUEUE_CAPACITY: u32 = 0x7FFF_FFFF;

/// Counters that differ by less than the modulus land in different slots.
proof fn lemma_mod_neq(x: int, y: int, cap: int)
    requires
        0 < cap,
        0 <= x < y,
        y - x < cap,
    ensures
        x % cap != y % cap,
{
    lemma_fundamental_div_mod(x, cap);
    lemma_fundamental_div_mod(y, cap);
    if x % cap == y % cap {
        let d = y / cap - x / cap;
        assert(y - x == cap * d) by (nonlinear_arith)
            requires
                x == cap * (x / cap) + x % cap,
                y == cap * (y / cap) + y % cap,
                x % cap == y % cap,
                d == y / cap - x / cap,
        ;
        if d >= 1 {
            assert(cap * d >= cap) by (nonlinear_arith)
                requires
                    cap > 0 && d >= 1,
            ;
        } else if d <= -1 {
            assert(cap * d <= -cap) by (nonlinear_arith)
                requires
                    cap > 0 && d <= -1,
            ;
        } else {
            assert(d == 0);
            assert(cap * 0 == 0) by (nonlinear_arith);
        }
    }
}

/// The event-queue ring.
pub struct EventQueue {
    /// The ring's slots; the vector's length is the capacity.
    pub events: Vec<OrderEvent>,
    /// Counter of the oldest live record.
    pub head: u32,
    /// Counter one past the newest live record.
    pub tail: u32,
}

impl EventQueue {
    /// Number of slots in the ring.
    pub open spec fn cap(self) -> int {
        self.events.len() as int
    }

    /// Well-formedness: a positive, bounded capacity; `head` below it;
    /// at most `cap` live records.
    pub open spec fn wf(self) -> bool {
        &&& 1 <= self.cap() <= MAX_QUEUE_CAPACITY as int
        &&& (self.head as int) < self.cap()
        &&& self.head <= self.tail
        &&& self.tail - self.head <= self.cap()
    }

    /// The live records, oldest first.
    pub open spec fn live(self) -> Seq<OrderEvent> {
        Seq::new(
            (self.tail - self.head) as nat,
            |i: int| self.events@[(self.head + i) % self.cap()],
        )
    }

    /// Create an empty ring of `capacity` slots. Fails with
    /// `InvalidCapacity` exactly when `capacity` is zero or above
    /// [`MAX_QUEUE_CAPACITY`].
    pub fn new(capacity: u32) -> (r: Result<EventQueue, ErrorCode>)
        ensures
            match r {
                Ok(q) => {
                    &&& 1 <= capacity <= MAX_QUEUE_CAPACITY
                    &&& q.wf()
                    &&& q.cap() == capacity
                    &&& q.head == 0
                    &&& q.tail == 0
                    &&& q.live() == Seq::<OrderEvent>::empty()
                },
                Err(e) => {
                    &&& e == ErrorCode::InvalidCapacity
                    &&& (capacity == 0 || capacity > MAX_QUEUE_CAPACITY)
                },
            },
    {
        if capacity == 0 || capacity > MAX_QUEUE_CAPACITY {
            return Err(ErrorCode::InvalidCapacity);
        }
        let mut events: Vec<OrderEvent> = Vec::new();
        let mut i: u32 = 0;
        while i < capacity
            invariant
                i <= capacity,
                events.len() == i,
            decreases capacity - i,
        {
            events.push(
                OrderEvent { event_type: 0, key: 0, price: 0, qty: 0, owner: [0u8; 32] },
            );
            i = i + 1;
        }
        let q = EventQueue { events, head: 0, tail: 0 };
        proof {
            assert(q.live() =~= Seq::<OrderEvent>::empty());
        }
        Ok(q)
    }

    /// Number of live records.
    pub fn len(&self) -> (r: u32)
        requires
            self.wf(),
        ensures
            r as int == self.live().len(),
    {
        self.tail - self.head
    }

    /// The `i`-th live record, oldest first, without consuming it.
    pub fn get_live(&self, i: u32) -> (r: OrderEvent)
        requires
            self.wf(),
            (i as int) < self.live().len(),
        ensures
            r == self.live()[i as int],
    {
        let cap = self.events.len() as u32;
        let slot = ((self.head + i) % cap) as usize;
        proof {
            lemma_mod_division_less_than_divisor(self.head + i, cap as int);
        }
        self.events[slot]
    }

    /// Append `ev`. If the ring is full, the oldest record is dropped to
    /// make room: the producer never blocks.
    pub fn push(&mut self, ev: OrderEvent)
        requires
            old(self).wf(),
        ensures
            final(self).wf(),
            final(self).cap() == old(self).cap(),
            old(self).live().len() < old(self).cap() ==> {
                &&& final(self).live() == old(self).live().push(ev)
                &&& final(self).head == old(self).head
                &&& final(self).tail == old(self).tail + 1
            },
            old(self).live().len() == old(self).cap() ==> {
                &&& final(self).live() == old(self).live().drop_first().push(ev)
                &&& (if old(self).head + 1 < old(self).cap() {
                    final(self).head == old(self).head + 1 && final(self).tail == old(self).tail
                        + 1
                } else {
                    final(self).head == 0 && final(self).tail == old(self).tail + 1 - old(
                        self,
                    ).cap()
                })
            },
    {
        let ghost h = old(self).head as int;
        let ghost t = old(self).tail as int;
        let ghost capg = old(self).cap();
        let cap = self.events.len() as u32;
        let slot = (self.tail % cap) as usize;
        proof {
            lemma_mod_division_less_than_divisor(t, capg);
        }
        self.events[slot] = ev;
        self.tail = self.tail + 1;
        if self.tail - self.head > cap {
            self.head = self.head + 1;
            if self.head >= cap {
                self.head = self.head - cap;
                self.tail = self.tail - cap;
            }
        }
        proof {
            let hn = self.head as int;
            let nn = self.events@;
            let on = old(self).events@;
            if t - h < capg {
                // Not full: nothing is dropped.
                assert(final(self).live() =~= old(self).live().push(ev)) by {
                    assert forall|i: int| 0 <= i < t + 1 - h implies final(self).live()[i] == old(
                        self,
                    ).live().push(ev)[i] by {
                        if i < t - h {
                            lemma_mod_neq(h + i, t, capg);
                            assert(nn[(h + i) % capg] == on[(h + i) % capg]);
                        } else {
                            assert(h + i == t);
                        }
                    }
                }
            } else {
                // Full: the record at the head slot is overwritten.
                assert(t - h == capg);
                assert((h + capg) % capg == h % capg) by {
                    lemma_mod_sub_multiples_vanish(h + capg, capg);
                }
                assert(hn % capg == (h + 1) % capg) by {
                    if h + 1 < capg {
                    } else {
                        lemma_mod_sub_multiples_vanish(h + 1, capg);
                    }
                }
                assert(final(self).live() =~= old(self).live().drop_first().push(ev)) by {
                    assert forall|i: int| 0 <= i < capg implies final(self).live()[i] == old(
                        self,
                    ).live().drop_first().push(ev)[i] by {
                        lemma_small_mod(hn as nat, capg as nat);
                        assert((hn + i) % capg == (h + 1 + i) % capg) by {
                            if hn == h + 1 {
                            } else {
                                lemma_mod_sub_multiples_vanish(h + 1 + i, capg);
                            }
                        }
                        if i < capg - 1 {
                            lemma_mod_neq(h + 1 + i, t, capg);
                            assert(nn[(h + 1 + i) % capg] == on[(h + 1 + i) % capg]);
                        } else {
                            assert(h + 1 + i == t);
                        }
                    }
                }
            }
            lemma_small_mod(self.head as nat, capg as nat);
        }
    }

    /// Drop every live record, as a consumer that has drained the queue
    /// does: `head` catches up with `tail`.
    pub fn consume_all(&mut self)
        requires
            old(self).wf(),
        ensures
            final(self).wf(),
            final(self).cap() == old(self).cap(),
            final(self).live() == Seq::<OrderEvent>::empty(),
            final(self).head == final(self).tail,
            final(self).events == old(self).events,
    {
        let cap = self.events.len() as u32;
        let t = self.tail % cap;
        proof {
            lemma_mod_division_less_than_divisor(self.tail as int, cap as int);
        }
        self.head = t;
        self.tail = t;
        proof {
            assert(final(self).live() =~= Seq::<OrderEvent>::empty());
        }
    }
}

/// The live region after pushing the run `evs`, in order, onto a ring of
/// capacity `cap` whose live region was `pre`: the newest `cap` records
/// survive.
pub open spec fn ring_after(pre: Seq<OrderEvent>, evs: Seq<OrderEvent>, cap: int) -> Seq<
    OrderEvent,
> {
    let all = pre + evs;
    if all.len() <= cap {
        all
    } else {
        all.skip(all.len() - cap)
    }
}

/// Pushing nothing changes nothing.
pub proof fn lemma_ring_after_empty(pre: Seq<OrderEvent>, cap: int)
    requires
        pre.len() <= cap,
    ensures
        ring_after(pre, Seq::<OrderEvent>::empty(), cap) == pre,
{
    assert(pre + Seq::<OrderEvent>::empty() =~= pre);
}

/// One more push extends the run: it appends, dropping the oldest record
/// when the ring is full, exactly as [`EventQueue::push`] does.
pub proof fn lemma_ring_after_step(
    pre: Seq<OrderEvent>,
    evs: Seq<OrderEvent>,
    ev: OrderEvent,
    cap: int,
)
    requires
        0 < cap,
        pre.len() <= cap,
    ensures
        ({
            let cur = ring_after(pre, evs, cap);
            ring_after(pre, evs.push(ev), cap) == (if cur.len() < cap {
                cur.push(ev)
            } else {
                cur.drop_first().push(ev)
            })
        }),
{
    let all = pre + evs;
    let all2 = pre + evs.push(ev);
    assert(all2 =~= all.push(ev));
    let cur = ring_after(pre, evs, cap);
    if all.len() < cap {
        assert(ring_after(pre, evs.push(ev), cap) =~= cur.push(ev));
    } else {
        assert(cur.len() == cap);
        assert(ring_after(pre, evs.push(ev), cap) =~= cur.drop_first().push(ev));
    }
}

/// Serialize an event record into the queue. On typed records
/// serialization cannot fail, so this always pushes and returns `Ok`,
/// dropping the oldest record if the ring is full.
pub fn push_event(
    queue: &mut EventQueue,
    event_type: u8,
    key: u128,
    price: u64,
    qty: u64,
    owner: [u8; 32],
) -> (r: Result<(), ErrorCode>)
    requires
        old(queue).wf(),
    ensures
        r.is_ok(),
        final(queue).wf(),
        final(queue).cap() == old(queue).cap(),
        ({
            let ev = OrderEvent { event_type, key, price, qty, owner };
            &&& (old(queue).live().len() < old(queue).cap() ==> final(queue).live() == old(
                queue,
            ).live().push(ev))
            &&& (old(queue).live().len() == old(queue).cap() ==> final(queue).live() == old(
                queue,
            ).live().drop_first().push(ev))
        }),
{
    let ev = OrderEvent { event_type, key, price, qty, owner };
    queue.push(ev);
    Ok(())
}

} // verus!
