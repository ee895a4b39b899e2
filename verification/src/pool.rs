//! The model of the key ring: what each operation does to it, and what holds of all of them.

use vstd::prelude::*;

verus! {

/// The ring of keys with its counters.
#[verifier::ext_equal]
pub struct Pool {
    pub keys: Seq<Seq<char>>,
    /// The position of the key that new requests start with.
    pub active: int,
    /// Requests sent, for each key.
    pub requests: Seq<u64>,
    /// Moves away from the key, for each key.
    pub failovers: Seq<u64>,
    pub requests_total: u64,
    pub failovers_total: u64,
}

/// A counter after one more event: after the largest number comes zero.
pub open spec fn bump(count: u64) -> u64 {
    if count == u64::MAX {
        0
    } else {
        (count + 1) as u64
    }
}

/// The sum of some counters.
pub open spec fn sum(counts: Seq<u64>) -> nat
    decreases counts.len(),
{
    if counts.len() == 0 {
        0
    } else {
        sum(counts.drop_last()) + counts.last() as nat
    }
}

impl Pool {
    /// A ring over `keys` to which nothing has happened.
    pub open spec fn fresh(keys: Seq<Seq<char>>) -> Pool {
        Pool {
            keys,
            active: 0,
            requests: Seq::new(keys.len(), |i: int| 0u64),
            failovers: Seq::new(keys.len(), |i: int| 0u64),
            requests_total: 0,
            failovers_total: 0,
        }
    }

    /// The active position lies in the ring, each key has its counters, and the totals are the
    /// sums of the counters as far as a counter reaches.
    pub open spec fn wf(self) -> bool {
        &&& self.requests.len() == self.keys.len()
        &&& self.failovers.len() == self.keys.len()
        &&& 0 <= self.active
        &&& self.active < self.keys.len() || (self.keys.len() == 0 && self.active == 0)
        &&& self.requests_total as nat == sum(self.requests) % 0x1_0000_0000_0000_0000
        &&& self.failovers_total as nat == sum(self.failovers) % 0x1_0000_0000_0000_0000
    }

    /// The position behind `from` in the ring.
    pub open spec fn next(self, from: int) -> int {
        (from + 1) % (self.keys.len() as int)
    }

    /// The ring after a request was sent with the key at `index`.
    pub open spec fn recorded(self, index: int) -> Pool {
        Pool {
            requests: self.requests.update(index, bump(self.requests[index])),
            requests_total: bump(self.requests_total),
            ..self
        }
    }

    /// The ring after the key at `from` was refused: it moves on by one position if that key is
    /// still the active one, and stays as it is if another request has moved it already.
    pub open spec fn rotated(self, from: int) -> Pool {
        if self.active == from {
            Pool {
                active: self.next(from),
                failovers: self.failovers.update(from, bump(self.failovers[from])),
                failovers_total: bump(self.failovers_total),
                ..self
            }
        } else {
            self
        }
    }

    /// The ring after the active key was refused `steps` times in a row.
    pub open spec fn advanced(self, steps: nat) -> Pool
        decreases steps,
    {
        if steps == 0 {
            self
        } else {
            let before = self.advanced((steps - 1) as nat);
            before.rotated(before.active)
        }
    }
}

/// What can happen to a ring.
pub enum Event {
    /// A request is sent with the key at this position.
    Sent(int),
    /// The key at this position is refused.
    Refused(int),
}

impl Event {
    /// A request is sent with a key of the ring.  A refusal may name any position: one outside
    /// the ring is never active, and moves nothing.
    pub open spec fn fits(self, pool: Pool) -> bool {
        match self {
            Event::Sent(index) => 0 <= index < pool.keys.len(),
            Event::Refused(from) => 0 <= from,
        }
    }

    /// The ring after the event.
    pub open spec fn apply(self, pool: Pool) -> Pool {
        match self {
            Event::Sent(index) => pool.recorded(index),
            Event::Refused(from) => pool.rotated(from),
        }
    }
}

/// The ring after some events, in their order.
pub open spec fn after_all(pool: Pool, events: Seq<Event>) -> Pool
    decreases events.len(),
{
    if events.len() == 0 {
        pool
    } else {
        events.last().apply(after_all(pool, events.drop_last()))
    }
}

/// All the events can happen to the ring.
pub open spec fn all_fit(pool: Pool, events: Seq<Event>) -> bool {
    forall|i: int| 0 <= i < events.len() ==> (#[trigger] events[i]).fits(pool)
}

/// How many of the events sent a request with the key at `index`.
pub open spec fn sent_with(events: Seq<Event>, index: int) -> nat {
    events.filter(|e: Event| e == Event::Sent(index)).len()
}

/// How many of the events sent a request.
pub open spec fn sent(events: Seq<Event>) -> nat {
    events.filter(|e: Event| e is Sent).len()
}

proof fn lemma_sum_update(counts: Seq<u64>, i: int, count: u64)
    requires
        0 <= i < counts.len(),
    ensures
        sum(counts.update(i, count)) == sum(counts) - counts[i] + count,
    decreases counts.len(),
{
    let updated = counts.update(i, count);
    if i == counts.len() - 1 {
        assert(updated.drop_last() =~= counts.drop_last());
    } else {
        lemma_sum_update(counts.drop_last(), i, count);
        assert(updated.drop_last() =~= counts.drop_last().update(i, count));
    }
}

proof fn lemma_sum_zero(counts: Seq<u64>)
    requires
        forall|i: int| 0 <= i < counts.len() ==> counts[i] == 0,
    ensures
        sum(counts) == 0,
    decreases counts.len(),
{
    if counts.len() > 0 {
        lemma_sum_zero(counts.drop_last());
    }
}

/// One more event in one counter and in the total keeps the total the sum of the counters.
proof fn lemma_bump_balance(counts: Seq<u64>, i: int, total: u64)
    requires
        0 <= i < counts.len(),
        total as nat == sum(counts) % 0x1_0000_0000_0000_0000,
    ensures
        bump(total) as nat == sum(counts.update(i, bump(counts[i]))) % 0x1_0000_0000_0000_0000,
{
    lemma_sum_update(counts, i, bump(counts[i]));
}

/// A ring to which nothing has happened is well formed.
pub proof fn lemma_fresh_wf(keys: Seq<Seq<char>>)
    ensures
        Pool::fresh(keys).wf(),
{
    lemma_sum_zero(Pool::fresh(keys).requests);
    lemma_sum_zero(Pool::fresh(keys).failovers);
}

/// Sending a request keeps a ring well formed.
pub proof fn lemma_recorded_wf(pool: Pool, index: int)
    requires
        pool.wf(),
        0 <= index < pool.keys.len(),
    ensures
        pool.recorded(index).wf(),
{
    lemma_bump_balance(pool.requests, index, pool.requests_total);
}

/// A refusal keeps a ring well formed.
pub proof fn lemma_rotated_wf(pool: Pool, from: int)
    requires
        pool.wf(),
        pool.keys.len() > 0,
    ensures
        pool.rotated(from).wf(),
{
    if pool.active == from {
        lemma_bump_balance(pool.failovers, from, pool.failovers_total);
    }
}

/// Whatever requests are sent and refused, in whatever order: the keys stay the same, the active
/// position stays in the ring, and the totals stay the sums of the counters.
pub proof fn law_every_event_keeps_the_ring(pool: Pool, events: Seq<Event>)
    requires
        pool.wf(),
        pool.keys.len() > 0,
        all_fit(pool, events),
    ensures
        after_all(pool, events).wf(),
        after_all(pool, events).keys == pool.keys,
    decreases events.len(),
{
    if events.len() > 0 {
        let earlier = events.drop_last();
        assert(forall|i: int| 0 <= i < earlier.len() ==> #[trigger] earlier[i] == events[i]);
        law_every_event_keeps_the_ring(pool, earlier);
        let before = after_all(pool, earlier);
        assert(events.last() == events[events.len() - 1]);
        match events.last() {
            Event::Sent(index) => lemma_recorded_wf(before, index),
            Event::Refused(from) => lemma_rotated_wf(before, from),
        }
    }
}

/// However often one key is refused, with requests being sent in between: if it was the active
/// one, the ring moves on by one position, to the key behind it, and counts one failover; if not,
/// the ring stays.  No key is skipped.  (A ring of one key has no other to move to: there each
/// refusal counts.)
pub proof fn law_refusals_of_one_key_move_the_ring_once(
    pool: Pool,
    from: int,
    events: Seq<Event>,
)
    requires
        pool.wf(),
        pool.keys.len() > 1,
        0 <= from,
        all_fit(pool, events),
        forall|i: int|
            0 <= i < events.len() ==> (#[trigger] events[i]) is Sent || events[i]
                == Event::Refused(from),
    ensures
        ({
            let after = after_all(pool, events);
            let target = if events.contains(Event::Refused(from)) {
                pool.rotated(from)
            } else {
                pool
            };
            &&& after.active == target.active
            &&& after.failovers == target.failovers
            &&& after.failovers_total == target.failovers_total
        }),
    decreases events.len(),
{
    if events.len() > 0 {
        let earlier = events.drop_last();
        let last = events.last();
        assert(forall|i: int| 0 <= i < earlier.len() ==> #[trigger] earlier[i] == events[i]);
        assert(last == events[events.len() - 1]);
        law_refusals_of_one_key_move_the_ring_once(pool, from, earlier);
        law_every_event_keeps_the_ring(pool, earlier);
        let refused = Event::Refused(from);
        if earlier.contains(refused) {
            let i = choose|i: int| 0 <= i < earlier.len() && earlier[i] == refused;
            assert(events[i] == refused);
        }
        if events.contains(refused) && last != refused {
            let i = choose|i: int| 0 <= i < events.len() && events[i] == refused;
            assert(earlier[i] == refused);
        }
        assert(pool.next(from) != from) by (nonlinear_arith)
            requires
                0 <= from,
                pool.keys.len() > 1,
                pool.next(from) == (from + 1) % (pool.keys.len() as int),
        ;
    }
}

/// Refusing the active key again and again walks the ring in order and comes back to the key it
/// started from after as many steps as there are keys.
pub proof fn law_refusals_walk_the_ring(pool: Pool, steps: nat)
    requires
        pool.wf(),
        pool.keys.len() > 0,
    ensures
        pool.advanced(steps).active == (pool.active + steps) % (pool.keys.len() as int),
        pool.advanced(steps).keys == pool.keys,
        pool.advanced(pool.keys.len()).active == pool.active,
{
    lemma_walk(pool, steps);
    lemma_walk(pool, pool.keys.len());
    let n = pool.keys.len() as int;
    vstd::arithmetic::div_mod::lemma_mod_add_multiples_vanish(pool.active, n);
    vstd::arithmetic::div_mod::lemma_small_mod(pool.active as nat, n as nat);
}

proof fn lemma_walk(pool: Pool, steps: nat)
    requires
        pool.wf(),
        pool.keys.len() > 0,
    ensures
        pool.advanced(steps).active == (pool.active + steps) % (pool.keys.len() as int),
        pool.advanced(steps).keys == pool.keys,
    decreases steps,
{
    let n = pool.keys.len() as int;
    if steps == 0 {
        vstd::arithmetic::div_mod::lemma_small_mod(pool.active as nat, n as nat);
    } else {
        lemma_walk(pool, (steps - 1) as nat);
        vstd::arithmetic::div_mod::lemma_add_mod_noop_right(1, pool.active + steps - 1, n);
    }
}

/// When a request is counted does not matter: counting it before or after any other event leaves
/// the same ring.
pub proof fn law_sending_commutes(pool: Pool, index: int, event: Event)
    requires
        pool.wf(),
        0 <= index < pool.keys.len(),
        event.fits(pool),
    ensures
        event.apply(pool.recorded(index)) == event.apply(pool).recorded(index),
{
    match event {
        Event::Sent(other) => {
            assert(pool.recorded(index).recorded(other).requests =~= pool.recorded(other).recorded(
                index,
            ).requests);
        },
        Event::Refused(from) => {},
    }
}

/// The request counters of a ring count the requests that were sent since it was made, as far as
/// a counter reaches.
pub proof fn law_counters_count_requests(keys: Seq<Seq<char>>, events: Seq<Event>, index: int)
    requires
        all_fit(Pool::fresh(keys), events),
        0 <= index < keys.len(),
    ensures
        ({
            let after = after_all(Pool::fresh(keys), events);
            &&& after.requests.len() == keys.len()
            &&& after.requests[index] as nat == sent_with(events, index)
                % 0x1_0000_0000_0000_0000
            &&& after.requests_total as nat == sent(events) % 0x1_0000_0000_0000_0000
        }),
    decreases events.len(),
{
    reveal(Seq::filter);
    if events.len() > 0 {
        let earlier = events.drop_last();
        assert(forall|i: int| 0 <= i < earlier.len() ==> #[trigger] earlier[i] == events[i]);
        assert(events.last() == events[events.len() - 1]);
        law_counters_count_requests(keys, earlier, index);
    }
}

} // verus!
