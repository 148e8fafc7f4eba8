//! Delayed delivery: payloads held until a pulse reports that their deadline
//! has come.
use comparator::collections::BinaryHeap;
use comparator::combinators::ReverseOrder;
use std::collections::HashMap;
use vstd::multiset::Multiset;
use vstd::prelude::*;

use crate::actors::{ActorBuilder, ActorData, Fate, Handler, System, SystemInterface};
use crate::arena::ActorKey;
use crate::registry::{
    create_all, fan_out, lemma_fan_out_owner, lemma_fan_out_owners, lemma_owned_concat,
    lemma_owned_none, lemma_owned_survivors, lemma_register_all_appends, lookup, owned, prune,
    register_all, subscriptions, survivors, Registration,
};

verus! {

broadcast use {vstd::std_specs::hash::group_hash_axioms, vstd::multiset::group_multiset_axioms};

/// comparator's BinaryHeap, carried opaquely; what it holds is `heap_items`.
#[verifier::external_type_specification]
#[verifier::external_body]
#[verifier::reject_recursive_types(T)]
#[verifier::reject_recursive_types(U)]
pub struct ExBinaryHeap<T, U>(BinaryHeap<T, U>);

/// comparator's ReverseOrder comparator, carried opaquely.
#[verifier::external_type_specification]
#[verifier::external_body]
pub struct ExReverseOrder(ReverseOrder);

/// The items held by a heap of (deadline, id) pairs.
pub uninterp spec fn heap_items(h: BinaryHeap<(u64, u64), ReverseOrder>) -> Multiset<(u64, u64)>;

/// Lexicographic order on (deadline, id) pairs, as `Ord` orders tuples.
pub open spec fn pair_le(a: (u64, u64), b: (u64, u64)) -> bool {
    a.0 < b.0 || (a.0 == b.0 && a.1 <= b.1)
}

/// Relies on comparator::reverse_order: the comparator that orders by `Ord`, reversed.
pub assume_specification[ comparator::reverse_order ]() -> ReverseOrder;

/// Relies on comparator's BinaryHeap::with_comparator: a new heap is empty.
#[verifier::external_body]
fn heap_with(order: ReverseOrder) -> (h: BinaryHeap<(u64, u64), ReverseOrder>)
    ensures
        heap_items(h) == Multiset::<(u64, u64)>::empty(),
{
    BinaryHeap::with_comparator(order)
}

/// Relies on comparator's BinaryHeap::push: the item joins the heap.
#[verifier::external_body]
fn heap_push(h: &mut BinaryHeap<(u64, u64), ReverseOrder>, item: (u64, u64))
    ensures
        heap_items(*final(h)) == heap_items(*old(h)).insert(item),
{
    h.push(item)
}

/// Relies on comparator's BinaryHeap::peek: the greatest item under the
/// comparator, which under `ReverseOrder` is the least under `Ord`.
#[verifier::external_body]
fn heap_peek(h: &BinaryHeap<(u64, u64), ReverseOrder>) -> (r: Option<(u64, u64)>)
    ensures
        r is None <==> heap_items(*h) == Multiset::<(u64, u64)>::empty(),
        r matches Some(x) ==> heap_items(*h).count(x) > 0 && forall|y: (u64, u64)|
            #[trigger] heap_items(*h).count(y) > 0 ==> pair_le(x, y),
{
    h.peek().copied()
}

/// Relies on comparator's BinaryHeap::pop: removes and returns the item that
/// `peek` shows.
#[verifier::external_body]
fn heap_pop(h: &mut BinaryHeap<(u64, u64), ReverseOrder>) -> (r: Option<(u64, u64)>)
    ensures
        r is None <==> heap_items(*old(h)) == Multiset::<(u64, u64)>::empty(),
        r is None ==> heap_items(*final(h)) == heap_items(*old(h)),
        r matches Some(x) ==> {
            &&& heap_items(*old(h)).count(x) > 0
            &&& heap_items(*final(h)) == heap_items(*old(h)).remove(x)
            &&& forall|y: (u64, u64)| #[trigger] heap_items(*old(h)).count(y) > 0 ==> pair_le(x, y)
        },
{
    h.pop()
}

/// A request to deliver the payload once the deadline has come.
#[derive(Clone, Debug)]
pub struct DelayUntil<T>(pub u64, pub T);

/// Packages `ping` for delivery `delay` time units after `now`.
pub fn delay_from_now<T>(ping: T, now: u64, delay: u64) -> (r: DelayUntil<T>)
    requires
        now + delay <= u64::MAX,
    ensures
        r.0 == now + delay,
        r.1 == ping,
{
    DelayUntil(now + delay, ping)
}

/// `ids` lists, without repeats and earliest deadline first (ties by id),
/// exactly the entries of `pending` whose deadline is at or before `now`.
pub open spec fn released_in_order<M>(pending: Map<u64, (u64, M)>, now: u64, ids: Seq<u64>) -> bool {
    &&& ids.no_duplicates()
    &&& forall|id: u64| #[trigger]
        ids.contains(id) == (pending.contains_key(id) && pending[id].0 <= now)
    &&& forall|i: int, j: int|
        0 <= i < j < ids.len() ==> pair_le(
            (pending[ids[i]].0, ids[i]),
            (pending[ids[j]].0, ids[j]),
        )
}

/// The entries of `pending` whose deadline is still ahead of `now`.
pub open spec fn still_waiting<M>(pending: Map<u64, (u64, M)>, now: u64) -> Map<u64, (u64, M)> {
    Map::new(|id: u64| pending.contains_key(id) && pending[id].0 > now, |id: u64| pending[id])
}

/// The payloads of `ids`, in order.
pub open spec fn payloads_of<M>(pending: Map<u64, (u64, M)>, ids: Seq<u64>) -> Seq<M> {
    ids.map_values(|id: u64| pending[id].1)
}

/// Payloads waiting for their deadline, kept in a heap of (deadline, id)
/// pairs that yields the earliest first.
pub struct DelayScheduler<M> {
    heap: BinaryHeap<(u64, u64), ReverseOrder>,
    entries: HashMap<u64, (u64, M)>,
    next_id: u64,
    released: Ghost<Seq<u64>>,
}

impl<M> DelayScheduler<M> {
    /// The waiting entries: id to (deadline, payload).
    pub closed spec fn pending(&self) -> Map<u64, (u64, M)> {
        self.entries@
    }

    /// The id the next scheduled payload gets.
    pub closed spec fn next_id(&self) -> u64 {
        self.next_id
    }

    /// The ids released by the most recent pulse, in release order.
    pub closed spec fn last_released(&self) -> Seq<u64> {
        self.released@
    }

    pub closed spec fn wf(&self) -> bool {
        &&& forall|p: (u64, u64)| #[trigger]
            heap_items(self.heap).count(p) == (if self.entries@.contains_key(p.1)
                && self.entries@[p.1].0 == p.0 {
                1nat
            } else {
                0nat
            })
        &&& forall|id: u64| #[trigger] self.entries@.contains_key(id) ==> id < self.next_id
    }

    pub fn new() -> (r: Self)
        ensures
            r.wf(),
            r.pending() == Map::<u64, (u64, M)>::empty(),
            r.next_id() == 0,
    {
        let r = DelayScheduler {
            heap: heap_with(comparator::reverse_order()),
            entries: HashMap::new(),
            next_id: 0,
            released: Ghost(Seq::empty()),
        };
        assert(r.entries@ =~= Map::<u64, (u64, M)>::empty());
        r
    }

    /// The id the next scheduled payload gets; `schedule` needs it below `u64::MAX`.
    pub fn upcoming_id(&self) -> (r: u64)
        ensures
            r == self.next_id(),
    {
        self.next_id
    }

    /// Holds `request`'s payload until its deadline; returns the entry's id.
    pub fn schedule(&mut self, request: DelayUntil<M>) -> (id: u64)
        requires
            old(self).wf(),
            old(self).next_id() < u64::MAX,
        ensures
            final(self).wf(),
            id == old(self).next_id(),
            final(self).next_id() == old(self).next_id() + 1,
            !old(self).pending().contains_key(id),
            final(self).pending() == old(self).pending().insert(id, (request.0, request.1)),
    {
        let DelayUntil(deadline, payload) = request;
        let id = self.next_id;
        heap_push(&mut self.heap, (deadline, id));
        self.entries.insert(id, (deadline, payload));
        self.next_id = id + 1;
        id
    }

    /// One pulse at `now`: the entries due by then are released, earliest
    /// deadline first, and the others keep waiting.
    pub open spec fn pulsed(pre: Self, now: u64, post: Self) -> bool {
        &&& post.next_id() == pre.next_id()
        &&& post.pending() == still_waiting(pre.pending(), now)
        &&& released_in_order(pre.pending(), now, post.last_released())
    }

    proof fn lemma_pending_shrinks(run: Seq<Self>, times: Seq<u64>, id: u64, i: int, j: int)
        requires
            run.len() == times.len() + 1,
            forall|m: int| 0 <= m < times.len() ==> Self::pulsed(run[m], #[trigger] times[m], run[m + 1]),
            0 <= i <= j < run.len(),
            run[j].pending().contains_key(id),
        ensures
            run[i].pending().contains_key(id),
            run[i].pending()[id] == run[j].pending()[id],
        decreases j - i,
    {
        if i < j {
            assert(Self::pulsed(run[j - 1], times[j - 1], run[j]));
            Self::lemma_pending_shrinks(run, times, id, i, j - 1);
        }
    }

    /// Timer accuracy: along pulses at the times `times`, an entry waiting at
    /// the start is released by exactly one pulse, the first whose time is at
    /// or past its deadline. It is never early, and it is late by less than
    /// the gap between that pulse and the one before.
    pub proof fn lemma_timer_accuracy(run: Seq<Self>, times: Seq<u64>, id: u64, k: int)
        requires
            run.len() == times.len() + 1,
            forall|m: int| 0 <= m < times.len() ==> Self::pulsed(run[m], #[trigger] times[m], run[m + 1]),
            run[0].pending().contains_key(id),
            0 <= k < times.len(),
            run[k + 1].last_released().contains(id),
        ensures
            times[k] >= run[0].pending()[id].0,
            forall|m: int| 0 <= m < k ==> #[trigger] times[m] < run[0].pending()[id].0,
            k > 0 ==> times[k] - run[0].pending()[id].0 < times[k] - times[k - 1],
            forall|m: int|
                0 <= m < times.len() && m != k ==> !(#[trigger] run[m + 1]).last_released().contains(id),
    {
        let d = run[0].pending()[id].0;
        assert(Self::pulsed(run[k], times[k], run[k + 1]));
        Self::lemma_pending_shrinks(run, times, id, 0, k);
        assert forall|m: int| 0 <= m < k implies #[trigger] times[m] < d by {
            Self::lemma_pending_shrinks(run, times, id, m + 1, k);
            Self::lemma_pending_shrinks(run, times, id, m, k);
            assert(Self::pulsed(run[m], times[m], run[m + 1]));
        }
        assert forall|m: int|
            0 <= m < times.len() && m != k implies !(#[trigger] run[m + 1]).last_released().contains(id) by {
            assert(Self::pulsed(run[m], times[m], run[m + 1]));
            if m < k {
                Self::lemma_pending_shrinks(run, times, id, m + 1, k);
            } else if run[m].pending().contains_key(id) {
                Self::lemma_pending_shrinks(run, times, id, k + 1, m);
            }
        }
        if k > 0 {
            assert(times[k - 1] < d);
        }
    }

    /// Releases, earliest deadline first, every payload whose deadline is at
    /// or before `now`.
    pub fn pulse(&mut self, now: u64) -> (due: Vec<M>)
        requires
            old(self).wf(),
        ensures
            final(self).wf(),
            Self::pulsed(*old(self), now, *final(self)),
            due@ == payloads_of(old(self).pending(), final(self).last_released()),
    {
        let ghost pre = self.entries@;
        let ghost mut ids: Seq<u64> = Seq::empty();
        let mut due: Vec<M> = Vec::new();
        let mut more = true;
        while more
            invariant
                self.wf(),
                self.next_id == old(self).next_id,
                self.entries@ == Map::new(
                    |id: u64| pre.contains_key(id) && !ids.contains(id),
                    |id: u64| pre[id],
                ),
                forall|id: u64| #[trigger] ids.contains(id) ==> pre.contains_key(id) && pre[id].0 <= now,
                ids.no_duplicates(),
                forall|i: int, j: int|
                    0 <= i < j < ids.len() ==> pair_le(
                        (pre[ids[i]].0, ids[i]),
                        (pre[ids[j]].0, ids[j]),
                    ),
                forall|i: int, id: u64|
                    0 <= i < ids.len() && #[trigger] self.entries@.contains_key(id) ==> pair_le(
                        (pre[#[trigger] ids[i]].0, ids[i]),
                        (pre[id].0, id),
                    ),
                due@ == payloads_of(pre, ids),
                !more ==> forall|id: u64| #[trigger]
                    self.entries@.contains_key(id) ==> self.entries@[id].0 > now,
            decreases heap_items(self.heap).len() + (if more { 1int } else { 0int }),
        {
            match heap_peek(&self.heap) {
                None => {
                    proof {
                        assert forall|id: u64| #[trigger]
                            self.entries@.contains_key(id) implies self.entries@[id].0 > now by {
                            assert(heap_items(self.heap).count((self.entries@[id].0, id)) == 1);
                        }
                    }
                    more = false;
                },
                Some(top) => {
                    if top.0 > now {
                        proof {
                            assert forall|id: u64| #[trigger]
                                self.entries@.contains_key(id) implies self.entries@[id].0 > now by {
                                assert(heap_items(self.heap).count((self.entries@[id].0, id)) == 1);
                            }
                        }
                        more = false;
                    } else {
                        let ghost before = self.entries@;
                        let popped = heap_pop(&mut self.heap);
                        let (deadline, id) = popped.unwrap();
                        proof {
                            assert((deadline, id) == top);
                            assert(before.contains_key(id) && before[id].0 == deadline);
                        }
                        let entry = self.entries.remove(&id);
                        let (_, payload) = entry.unwrap();
                        due.push(payload);
                        proof {
                            let prev_ids = ids;
                            ids = ids.push(id);
                            assert forall|x: u64| #[trigger] ids.contains(x) == (prev_ids.contains(x) || x == id) by {
                                if ids.contains(x) && x != id {
                                    let m = choose|m: int| 0 <= m < ids.len() && ids[m] == x;
                                    assert(prev_ids[m] == x);
                                }
                                if prev_ids.contains(x) {
                                    let m = choose|m: int| 0 <= m < prev_ids.len() && prev_ids[m] == x;
                                    assert(ids[m] == x);
                                }
                                assert(ids[ids.len() - 1] == id);
                            }
                            assert(self.entries@ =~= Map::new(
                                |k: u64| pre.contains_key(k) && !ids.contains(k),
                                |k: u64| pre[k],
                            ));
                            assert forall|k: u64| #[trigger] self.entries@.contains_key(k) implies pair_le(
                                (pre[id].0, id),
                                (pre[k].0, k),
                            ) by {
                                assert(heap_items(self.heap).count((pre[k].0, k)) == 1);
                            }
                            assert(due@ =~= payloads_of(pre, ids));
                        }
                    }
                },
            }
        }
        proof {
            assert(self.entries@ =~= still_waiting(pre, now));
            assert forall|id: u64| #[trigger]
                ids.contains(id) == (pre.contains_key(id) && pre[id].0 <= now) by {
                if pre.contains_key(id) && pre[id].0 <= now && !ids.contains(id) {
                    assert(self.entries@.contains_key(id));
                }
            }
        }
        self.released = Ghost(ids);
        due
    }

    /// Moves every due payload into the mailbox, earliest deadline first.
    pub fn release_into<S, H>(&mut self, now: u64, outbox: &mut SystemInterface<S, M, H>)
        requires
            old(self).wf(),
        ensures
            final(self).wf(),
            Self::pulsed(*old(self), now, *final(self)),
            final(outbox).outbox() == old(outbox).outbox() + payloads_of(
                old(self).pending(),
                final(self).last_released(),
            ),
            final(outbox).new_actors() == old(outbox).new_actors(),
    {
        let due = self.pulse(now);
        let mut rest = due;
        let ghost all = rest@;
        let ghost mut n: int = 0;
        let mut q: Vec<M> = Vec::new();
        while rest.len() > 0
            invariant
                0 <= n <= all.len(),
                rest@ == all.subrange(0, all.len() - n),
                q@ == all.subrange(all.len() - n, all.len() as int).reverse(),
            decreases rest@.len(),
        {
            let m = rest.pop().unwrap();
            q.push(m);
            proof {
                n = n + 1;
                assert(rest@ =~= all.subrange(0, all.len() - n));
                assert(q@ =~= all.subrange(all.len() - n, all.len() as int).reverse());
            }
        }
        let ghost base = outbox.outbox();
        let ghost mut k: int = 0;
        while q.len() > 0
            invariant
                0 <= k <= all.len(),
                q@ == all.subrange(k, all.len() as int).reverse(),
                outbox.outbox() == base + all.subrange(0, k),
                outbox.new_actors() == old(outbox).new_actors(),
            decreases q@.len(),
        {
            let m = q.pop().unwrap();
            proof {
                assert(m == all[k]);
            }
            outbox.send(m);
            proof {
                k = k + 1;
                assert(q@ =~= all.subrange(k, all.len() as int).reverse());
                assert(outbox.outbox() =~= base + all.subrange(0, k));
            }
        }
        proof {
            assert(all.subrange(0, all.len() as int) =~= all);
        }
    }
}

/// A handler type that can host the scheduler actor. Its spec functions say
/// which states hold a scheduler and which messages are scheduling requests
/// or pulses; an implementation defines them for its own state and message
/// types, and the defaults name no particular value.
pub trait DelayHost<S, M>: Handler<S, M> {
    /// The scheduler that `state` holds, if any.
    open spec fn timers(state: S) -> Option<DelayScheduler<M>> {
        arbitrary()
    }

    /// The request that `msg` carries, if it is a scheduling request.
    open spec fn request(msg: M) -> Option<DelayUntil<M>> {
        arbitrary()
    }

    /// The time that `msg` reports, if it is a pulse.
    open spec fn pulse_time(msg: M) -> Option<u64> {
        arbitrary()
    }
}

/// `h` reacts to a scheduling request as `DelayScheduler::schedule` does on
/// the scheduler that the actor's state holds: while ids are left, the
/// request joins the pending entries under the next id, and once they are
/// used up it is refused; nothing is sent or requested, and the actor stays.
pub open spec fn schedules_requests<S, M, H: DelayHost<S, M>>(h: H) -> bool {
    forall|st: S, msg: M|
        #![trigger h.next_state(st, msg)]
        #![trigger h.sent(st, msg)]
        #![trigger h.fate(st, msg)]
        H::timers(st) is Some && H::timers(st)->Some_0.wf() && H::request(msg) is Some ==> {
            let d = H::timers(st)->Some_0;
            let req = H::request(msg)->Some_0;
            let after = H::timers(h.next_state(st, msg));
            &&& after is Some
            &&& after->Some_0.wf()
            &&& d.next_id() < u64::MAX ==> {
                &&& after->Some_0.next_id() == d.next_id() + 1
                &&& after->Some_0.pending() == d.pending().insert(d.next_id(), (req.0, req.1))
            }
            &&& d.next_id() == u64::MAX ==> {
                &&& after->Some_0.next_id() == d.next_id()
                &&& after->Some_0.pending() == d.pending()
            }
            &&& h.sent(st, msg) == Seq::<M>::empty()
            &&& h.spawned(st, msg) == Seq::<ActorData<S, H>>::empty()
            &&& h.fate(st, msg) == Fate::Keep
        }
}

/// `h` reacts to a pulse at `now` as `DelayScheduler::release_into` does on
/// the scheduler that the actor's state holds: the due payloads are sent,
/// earliest deadline first, the rest keep waiting, nothing is requested, and
/// the actor stays.
pub open spec fn releases_on_pulse<S, M, H: DelayHost<S, M>>(h: H) -> bool {
    forall|st: S, msg: M|
        #![trigger h.next_state(st, msg)]
        #![trigger h.sent(st, msg)]
        #![trigger h.fate(st, msg)]
        H::timers(st) is Some && H::timers(st)->Some_0.wf() && H::pulse_time(msg) is Some ==> {
            let d = H::timers(st)->Some_0;
            let now = H::pulse_time(msg)->Some_0;
            let after = H::timers(h.next_state(st, msg));
            &&& after is Some
            &&& after->Some_0.wf()
            &&& DelayScheduler::pulsed(d, now, after->Some_0)
            &&& h.sent(st, msg) == payloads_of(d.pending(), after->Some_0.last_released())
            &&& h.spawned(st, msg) == Seq::<ActorData<S, H>>::empty()
            &&& h.fate(st, msg) == Fate::Keep
        }
}

/// Every message under `schedule_tag` is a scheduling request, and every
/// message under `pulse_tag` is a pulse; the two tags differ.
pub open spec fn delay_tags<S, M, H: DelayHost<S, M>>(schedule_tag: u64, pulse_tag: u64) -> bool {
    &&& schedule_tag != pulse_tag
    &&& forall|msg: M| #[trigger] H::tag_of(msg) == schedule_tag ==> H::request(msg) is Some
    &&& forall|msg: M| #[trigger] H::tag_of(msg) == pulse_tag ==> H::pulse_time(msg) is Some
}

/// Actor `k` hosts the scheduler in `sys`: it is live under an issued key,
/// its state holds a well-formed `DelayScheduler`, and its only
/// registrations are `on_schedule` under `schedule_tag` and `on_pulse` under
/// `pulse_tag`, which react as `schedule` and `release_into` do.
pub open spec fn hosts_scheduler<S, M, H: DelayHost<S, M>>(
    sys: System<S, M, H>,
    k: ActorKey,
    schedule_tag: u64,
    on_schedule: H,
    pulse_tag: u64,
    on_pulse: H,
) -> bool {
    &&& sys.issued().contains(k)
    &&& sys.actors().contains_key(k)
    &&& H::timers(sys.actors()[k]) is Some
    &&& H::timers(sys.actors()[k])->Some_0.wf()
    &&& schedules_requests(on_schedule)
    &&& releases_on_pulse(on_pulse)
    &&& delay_tags::<S, M, H>(schedule_tag, pulse_tag)
    &&& forall|t: u64| #[trigger]
        owned(sys.handlers_for(t), k) == (if t == schedule_tag {
            seq![on_schedule]
        } else if t == pulse_tag {
            seq![on_pulse]
        } else {
            Seq::<H>::empty()
        })
}

/// Registers the scheduler actor: a state holding a new, empty
/// `DelayScheduler`, the handler for scheduling requests under
/// `schedule_tag`, and the handler for the pulse under `pulse_tag`, in that
/// order. The handlers must react as `schedule` and `release_into` do.
pub fn init_delay_handler<S, M, H: DelayHost<S, M>>(
    system: &mut System<S, M, H>,
    state: S,
    schedule_tag: u64,
    on_schedule: H,
    pulse_tag: u64,
    on_pulse: H,
)
    requires
        old(system).wf(),
        H::timers(state) is Some,
        H::timers(state)->Some_0.wf(),
        H::timers(state)->Some_0.pending() == Map::<u64, (u64, M)>::empty(),
        schedules_requests(on_schedule),
        releases_on_pulse(on_pulse),
        delay_tags::<S, M, H>(schedule_tag, pulse_tag),
    ensures
        final(system).wf(),
        exists|k: ActorKey|
            {
                &&& !old(system).issued().contains(k)
                &&& final(system).issued() == old(system).issued().insert(k)
                &&& final(system).actors() == old(system).actors().insert(k, state)
                &&& final(system).registry() == register_all(
                    old(system).registry(),
                    k,
                    seq![(schedule_tag, on_schedule), (pulse_tag, on_pulse)],
                    2,
                )
                &&& hosts_scheduler(*final(system), k, schedule_tag, on_schedule, pulse_tag, on_pulse)
            },
        final(system).queue() == old(system).queue(),
        final(system).pending() == old(system).pending(),
{
    let data = ActorBuilder::new(state).with_handler(schedule_tag, on_schedule).with_handler(
        pulse_tag,
        on_pulse,
    ).build();
    proof {
        assert(data.handlers() =~= seq![(schedule_tag, on_schedule), (pulse_tag, on_pulse)]);
    }
    let ghost pre = *system;
    system.create_actor(data);
    proof {
        let hs = seq![(schedule_tag, on_schedule), (pulse_tag, on_pulse)];
        let k = choose|k: ActorKey|
            {
                &&& !pre.issued().contains(k)
                &&& system.issued() == pre.issued().insert(k)
                &&& system.actors() == pre.actors().insert(k, state)
                &&& system.registry() == register_all(pre.registry(), k, hs, 2)
            };
        System::lemma_owners_issued(pre);
        lemma_register_all_appends(pre.registry(), k, hs, 2);
        let r0 = Registration { owner: k, handler: on_schedule };
        let r1 = Registration { owner: k, handler: on_pulse };
        assert forall|t: u64| #[trigger]
            owned(system.handlers_for(t), k) == (if t == schedule_tag {
                seq![on_schedule]
            } else if t == pulse_tag {
                seq![on_pulse]
            } else {
                Seq::<H>::empty()
            }) by {
            let old_regs = pre.handlers_for(t);
            assert forall|j: int| 0 <= j < old_regs.len() implies (#[trigger] old_regs[j]).owner != k by {
                assert(pre.issued().contains(old_regs[j].owner));
            }
            lemma_owned_none(old_regs, k);
            let subs = subscriptions(k, hs, 2, t);
            assert(system.handlers_for(t) == lookup(system.registry(), t));
            assert(lookup(system.registry(), t) == lookup(pre.registry(), t) + subs);
            lemma_owned_concat(old_regs, subs, k);
            assert(old_regs + subs == system.handlers_for(t));
            let s1 = subscriptions(k, hs, 1, t);
            assert(subscriptions(k, hs, 0, t) == Seq::<Registration<H>>::empty());
            if t == schedule_tag {
                assert(s1 == seq![r0]);
                assert(subs == s1);
                assert(seq![r0].drop_last() =~= Seq::<Registration<H>>::empty());
                assert(owned(Seq::<Registration<H>>::empty(), k) == Seq::<H>::empty());
                assert(seq![r0].last() == r0);
                assert(owned(subs, k) =~= seq![on_schedule]);
            } else if t == pulse_tag {
                assert(s1 == Seq::<Registration<H>>::empty());
                assert(subs == s1.push(r1));
                assert(s1.push(r1).drop_last() =~= Seq::<Registration<H>>::empty());
                assert(owned(Seq::<Registration<H>>::empty(), k) == Seq::<H>::empty());
                assert(s1.push(r1).last() == r1);
                assert(owned(subs, k) =~= seq![on_pulse]);
            } else {
                assert(s1 == Seq::<Registration<H>>::empty());
                assert(subs == s1);
            }
        }
        assert(hosts_scheduler(*system, k, schedule_tag, on_schedule, pulse_tag, on_pulse));
    }
}

/// One pass with the scheduler actor installed: the actor keeps hosting the
/// scheduler. A pulse at `now` makes its scheduler pulse at `now`, and the
/// payloads released, earliest deadline first, join the queue behind the
/// messages that were already waiting, so each reaches its subscribers in a
/// later pass. A scheduling request adds the request to the pending entries
/// under the next id. Any other message leaves the scheduler as it was.
pub proof fn lemma_scheduler_pass<S, M, H: DelayHost<S, M>>(
    pre: System<S, M, H>,
    post: System<S, M, H>,
    k: ActorKey,
    schedule_tag: u64,
    on_schedule: H,
    pulse_tag: u64,
    on_pulse: H,
)
    requires
        pre.wf(),
        System::dispatched(pre, post),
        hosts_scheduler(pre, k, schedule_tag, on_schedule, pulse_tag, on_pulse),
    ensures
        hosts_scheduler(post, k, schedule_tag, on_schedule, pulse_tag, on_pulse),
        ({
            let msg = pre.queue()[0];
            let d = H::timers(pre.actors()[k])->Some_0;
            let d2 = H::timers(post.actors()[k])->Some_0;
            &&& H::tag_of(msg) == pulse_tag ==> {
                &&& DelayScheduler::pulsed(d, H::pulse_time(msg)->Some_0, d2)
                &&& exists|a: Seq<M>, b: Seq<M>|
                    post.queue() == pre.queue().drop_first() + a + payloads_of(
                        d.pending(),
                        d2.last_released(),
                    ) + b
            }
            &&& H::tag_of(msg) == schedule_tag && d.next_id() < u64::MAX ==> {
                &&& d2.next_id() == d.next_id() + 1
                &&& d2.pending() == d.pending().insert(
                    d.next_id(),
                    (H::request(msg)->Some_0.0, H::request(msg)->Some_0.1),
                )
            }
            &&& H::tag_of(msg) == schedule_tag && d.next_id() == u64::MAX ==> {
                &&& d2.next_id() == d.next_id()
                &&& d2.pending() == d.pending()
            }
            &&& H::tag_of(msg) != pulse_tag && H::tag_of(msg) != schedule_tag ==> d2 == d
        }),
{
    let msg = pre.queue()[0];
    let tag = H::tag_of(msg);
    let regs = System::offered(pre);
    let n = regs.len();
    let st = pre.actors()[k];
    let d = H::timers(st)->Some_0;
    System::lemma_owners_issued(pre);
    lemma_fan_out_owners(pre.actors(), regs, msg, n);
    let pass = fan_out(pre.actors(), regs, msg, n);
    assert(regs.take(n as int) =~= regs);
    assert(owned(pre.handlers_for(tag), k) == owned(regs, k));
    lemma_fan_out_owner(pre.actors(), regs, msg, n, k);
    let keys = post.last_created();
    assert(!keys.contains(k)) by {
        if keys.contains(k) {
            let i = choose|i: int| 0 <= i < keys.len() && keys[i] == k;
            assert(!pre.issued().contains(keys[i]));
        }
    }
    let base = pass.0.remove_keys(pass.3);
    let base_reg = prune(pre.registry(), pass.3);
    let born = System::to_be_born(pre);
    let ca = create_all(base, base_reg, born, keys);
    crate::registry::lemma_create_all(base, base_reg, born, keys);
    assert(post.actors() == ca.0 && post.registry() == ca.1);
    if tag == pulse_tag {
        assert(H::pulse_time(msg) is Some);
        assert(owned(regs, k)[0] == on_pulse);
        assert(on_pulse.fate(st, msg) == Fate::Keep);
        assert(H::timers(on_pulse.next_state(st, msg)) is Some);
        assert(owned(regs.take(n as int), k).len() == 1);
        assert(pass.3.contains(k) == (on_pulse.fate(pre.actors()[k], msg) == Fate::End));
    } else if tag == schedule_tag {
        assert(H::request(msg) is Some);
        assert(owned(regs, k)[0] == on_schedule);
        assert(on_schedule.fate(st, msg) == Fate::Keep);
        assert(H::timers(on_schedule.next_state(st, msg)) is Some);
        assert(owned(regs.take(n as int), k).len() == 1);
        assert(pass.3.contains(k) == (on_schedule.fate(pre.actors()[k], msg) == Fate::End));
    } else {
        assert(owned(regs.take(n as int), k).len() == 0);
    }
    assert(!pass.3.contains(k));
    assert(pass.0.contains_key(k));
    assert(base.contains_key(k));
    assert(ca.0[k] == base[k]);
    assert(post.actors()[k] == pass.0[k]);
    assert forall|t: u64| #[trigger] owned(post.handlers_for(t), k) == owned(pre.handlers_for(t), k) by {
        let p = lookup(base_reg, t);
        let whole = lookup(ca.1, t);
        assert(post.handlers_for(t) == whole);
        let rest = whole.subrange(p.len() as int, whole.len() as int);
        assert(whole =~= p + rest);
        assert forall|j: int| 0 <= j < rest.len() implies (#[trigger] rest[j]).owner != k by {
            assert(rest[j] == whole[p.len() + j]);
            assert(keys.contains(whole[p.len() + j].owner));
        }
        lemma_owned_none(rest, k);
        lemma_owned_concat(p, rest, k);
        let old_regs = lookup(pre.registry(), t);
        lemma_owned_survivors(old_regs, pass.3, k);
        if !base_reg.contains_key(t) {
            if old_regs.len() > 0 {
                assert(survivors(old_regs, pass.3).len() == 0);
            }
            assert(survivors(old_regs, pass.3) =~= p);
        }
        assert(owned(p, k) == owned(old_regs, k));
        assert(owned(p + rest, k) =~= owned(p, k));
    }
    if tag == pulse_tag {
        let (a, b) = choose|a: Seq<M>, b: Seq<M>|
            pass.1 == a + on_pulse.sent(st, msg) + b;
        assert(post.queue() =~= pre.queue().drop_first() + a + on_pulse.sent(st, msg) + b);
    }
}

/// The scheduler that actor `k`'s state holds in `sys`.
pub open spec fn scheduler_of<S, M, H: DelayHost<S, M>>(sys: System<S, M, H>, k: ActorKey) -> DelayScheduler<M> {
    H::timers(sys.actors()[k])->Some_0
}

/// Call `i` of a run of `handle_one` was a pulse pass whose scheduler
/// released entry `id`.
pub open spec fn released_by<S, M, H: DelayHost<S, M>>(
    run: Seq<System<S, M, H>>,
    results: Seq<bool>,
    k: ActorKey,
    pulse_tag: u64,
    id: u64,
    i: int,
) -> bool {
    &&& results[i]
    &&& H::tag_of(run[i].queue()[0]) == pulse_tag
    &&& scheduler_of(run[i + 1], k).last_released().contains(id)
}

/// One call of `handle_one` with the scheduler installed: it keeps hosting,
/// ids only grow, an entry that is gone stays gone, and a waiting entry stays
/// as it was unless a pulse pass releases it.
pub proof fn lemma_scheduler_step<S, M, H: DelayHost<S, M>>(
    pre: System<S, M, H>,
    post: System<S, M, H>,
    r: bool,
    k: ActorKey,
    schedule_tag: u64,
    on_schedule: H,
    pulse_tag: u64,
    on_pulse: H,
)
    requires
        pre.wf(),
        System::stepped(pre, post, r),
        hosts_scheduler(pre, k, schedule_tag, on_schedule, pulse_tag, on_pulse),
    ensures
        hosts_scheduler(post, k, schedule_tag, on_schedule, pulse_tag, on_pulse),
        scheduler_of(post, k).next_id() >= scheduler_of(pre, k).next_id(),
        forall|id: u64|
            id < scheduler_of(pre, k).next_id() && !scheduler_of(pre, k).pending().contains_key(id)
                ==> !#[trigger] scheduler_of(post, k).pending().contains_key(id),
        forall|id: u64|
            #[trigger] scheduler_of(pre, k).pending().contains_key(id) && !(r && H::tag_of(
                pre.queue()[0],
            ) == pulse_tag && scheduler_of(post, k).last_released().contains(id)) ==> {
                &&& scheduler_of(post, k).pending().contains_key(id)
                &&& scheduler_of(post, k).pending()[id] == scheduler_of(pre, k).pending()[id]
            },
        r && H::tag_of(pre.queue()[0]) == pulse_tag ==> DelayScheduler::pulsed(
            scheduler_of(pre, k),
            H::pulse_time(pre.queue()[0])->Some_0,
            scheduler_of(post, k),
        ),
{
    if !r {
        assert forall|t: u64| #[trigger]
            owned(post.handlers_for(t), k) == owned(pre.handlers_for(t), k) by {
            assert(post.handlers_for(t) == pre.handlers_for(t));
        }
    } else {
        lemma_scheduler_pass(pre, post, k, schedule_tag, on_schedule, pulse_tag, on_pulse);
        let d = scheduler_of(pre, k);
        let d2 = scheduler_of(post, k);
        let msg = pre.queue()[0];
        if H::tag_of(msg) == pulse_tag {
            assert forall|id: u64|
                #[trigger] d.pending().contains_key(id) && !d2.last_released().contains(id) implies {
                &&& d2.pending().contains_key(id)
                &&& d2.pending()[id] == d.pending()[id]
            } by {
                assert(d2.last_released().contains(id) == (d.pending().contains_key(id)
                    && d.pending()[id].0 <= H::pulse_time(msg)->Some_0));
            }
        } else if H::tag_of(msg) == schedule_tag && d.next_id() < u64::MAX {
            assert(!d.pending().contains_key(d.next_id()));
        }
    }
}

/// Timer accuracy for the installed scheduler: along a run of `handle_one`
/// calls, an entry waiting at the start is released by at most one pass, and
/// if pass `m` releases it, that pass is a pulse at or past the entry's
/// deadline, and every earlier pulse pass came before the deadline. So the
/// payload is never early, is late by less than the gap between two pulses,
/// and is sent exactly once.
pub proof fn lemma_installed_timer_accuracy<S, M, H: DelayHost<S, M>>(
    run: Seq<System<S, M, H>>,
    results: Seq<bool>,
    k: ActorKey,
    schedule_tag: u64,
    on_schedule: H,
    pulse_tag: u64,
    on_pulse: H,
    id: u64,
    m: int,
)
    requires
        run.len() == results.len() + 1,
        forall|i: int| 0 <= i < run.len() ==> (#[trigger] run[i]).wf(),
        forall|i: int|
            0 <= i < results.len() ==> System::stepped(run[i], run[i + 1], #[trigger] results[i]),
        hosts_scheduler(run[0], k, schedule_tag, on_schedule, pulse_tag, on_pulse),
        scheduler_of(run[0], k).pending().contains_key(id),
        0 <= m < results.len(),
        released_by(run, results, k, pulse_tag, id, m),
    ensures
        H::pulse_time(run[m].queue()[0])->Some_0 >= scheduler_of(run[0], k).pending()[id].0,
        forall|i: int|
            0 <= i < m && results[i] && H::tag_of(run[i].queue()[0]) == pulse_tag ==> H::pulse_time(
                (#[trigger] run[i]).queue()[0],
            )->Some_0 < scheduler_of(run[0], k).pending()[id].0,
        forall|i: int|
            0 <= i < results.len() && i != m ==> !#[trigger] released_by(
                run,
                results,
                k,
                pulse_tag,
                id,
                i,
            ),
{
    lemma_hosted_run(run, results, k, schedule_tag, on_schedule, pulse_tag, on_pulse, id, m);
    let d0 = scheduler_of(run[0], k).pending()[id];
    assert(hosts_scheduler(run[m], k, schedule_tag, on_schedule, pulse_tag, on_pulse));
    lemma_scheduler_step(run[m], run[m + 1], results[m], k, schedule_tag, on_schedule, pulse_tag, on_pulse);
    assert forall|i: int|
        0 <= i < m && results[i] && H::tag_of(run[i].queue()[0]) == pulse_tag implies H::pulse_time(
            (#[trigger] run[i]).queue()[0],
        )->Some_0 < d0.0 by {
        lemma_scheduler_step(run[i], run[i + 1], results[i], k, schedule_tag, on_schedule, pulse_tag, on_pulse);
        let d = scheduler_of(run[i], k);
        let d2 = scheduler_of(run[i + 1], k);
        assert(d2.pending().contains_key(id));
        assert(d2.pending() == still_waiting(d.pending(), H::pulse_time(run[i].queue()[0])->Some_0));
    }
    assert forall|i: int| 0 <= i < results.len() && i != m implies !#[trigger] released_by(
        run,
        results,
        k,
        pulse_tag,
        id,
        i,
    ) by {
        if released_by(run, results, k, pulse_tag, id, i) {
            if i < m {
                lemma_scheduler_step(run[i], run[i + 1], results[i], k, schedule_tag, on_schedule, pulse_tag, on_pulse);
                let d = scheduler_of(run[i], k);
                let d2 = scheduler_of(run[i + 1], k);
                let now = H::pulse_time(run[i].queue()[0])->Some_0;
                assert(d2.pending() == still_waiting(d.pending(), now));
                assert(d2.last_released().contains(id) == (d.pending().contains_key(id)
                    && d.pending()[id].0 <= now));
                assert(scheduler_of(run[i + 1], k).pending().contains_key(id));
            } else {
                let dm = scheduler_of(run[m], k);
                let dm1 = scheduler_of(run[m + 1], k);
                let now = H::pulse_time(run[m].queue()[0])->Some_0;
                assert(dm1.pending() == still_waiting(dm.pending(), now));
                assert(dm1.last_released().contains(id) == (dm.pending().contains_key(id)
                    && dm.pending()[id].0 <= now));
                lemma_gone_stays_gone(run, results, k, schedule_tag, on_schedule, pulse_tag, on_pulse, id, m + 1, i);
                lemma_scheduler_step(run[i], run[i + 1], results[i], k, schedule_tag, on_schedule, pulse_tag, on_pulse);
                let d = scheduler_of(run[i], k);
                let d2 = scheduler_of(run[i + 1], k);
                assert(d2.last_released().contains(id) == (d.pending().contains_key(id)
                    && d.pending()[id].0 <= H::pulse_time(run[i].queue()[0])->Some_0));
            }
        }
    }
}

proof fn lemma_hosted_run<S, M, H: DelayHost<S, M>>(
    run: Seq<System<S, M, H>>,
    results: Seq<bool>,
    k: ActorKey,
    schedule_tag: u64,
    on_schedule: H,
    pulse_tag: u64,
    on_pulse: H,
    id: u64,
    m: int,
)
    requires
        run.len() == results.len() + 1,
        forall|i: int| 0 <= i < run.len() ==> (#[trigger] run[i]).wf(),
        forall|i: int|
            0 <= i < results.len() ==> System::stepped(run[i], run[i + 1], #[trigger] results[i]),
        hosts_scheduler(run[0], k, schedule_tag, on_schedule, pulse_tag, on_pulse),
        scheduler_of(run[0], k).pending().contains_key(id),
        0 <= m < results.len(),
        released_by(run, results, k, pulse_tag, id, m),
    ensures
        forall|i: int|
            0 <= i <= m ==> hosts_scheduler(#[trigger] run[i], k, schedule_tag, on_schedule, pulse_tag, on_pulse)
                && scheduler_of(run[i], k).pending().contains_key(id) && scheduler_of(run[i], k).pending()[id]
                == scheduler_of(run[0], k).pending()[id],
{
    assert forall|i: int| 0 <= i <= m implies hosts_scheduler(
        #[trigger] run[i],
        k,
        schedule_tag,
        on_schedule,
        pulse_tag,
        on_pulse,
    ) && scheduler_of(run[i], k).pending().contains_key(id) && scheduler_of(run[i], k).pending()[id]
        == scheduler_of(run[0], k).pending()[id] by {
        lemma_hosted_prefix(run, results, k, schedule_tag, on_schedule, pulse_tag, on_pulse, id, m, i);
    }
}

proof fn lemma_hosted_prefix<S, M, H: DelayHost<S, M>>(
    run: Seq<System<S, M, H>>,
    results: Seq<bool>,
    k: ActorKey,
    schedule_tag: u64,
    on_schedule: H,
    pulse_tag: u64,
    on_pulse: H,
    id: u64,
    m: int,
    i: int,
)
    requires
        run.len() == results.len() + 1,
        forall|j: int| 0 <= j < run.len() ==> (#[trigger] run[j]).wf(),
        forall|j: int|
            0 <= j < results.len() ==> System::stepped(run[j], run[j + 1], #[trigger] results[j]),
        hosts_scheduler(run[0], k, schedule_tag, on_schedule, pulse_tag, on_pulse),
        scheduler_of(run[0], k).pending().contains_key(id),
        0 <= m < results.len(),
        released_by(run, results, k, pulse_tag, id, m),
        0 <= i <= m,
    ensures
        hosts_scheduler(run[i], k, schedule_tag, on_schedule, pulse_tag, on_pulse),
        scheduler_of(run[i], k).pending().contains_key(id),
        scheduler_of(run[i], k).pending()[id] == scheduler_of(run[0], k).pending()[id],
    decreases i,
{
    if i > 0 {
        lemma_hosted_prefix(run, results, k, schedule_tag, on_schedule, pulse_tag, on_pulse, id, m, i - 1);
        let j = i - 1;
        assert(System::stepped(run[j], run[j + 1], results[j]));
        lemma_scheduler_step(run[j], run[j + 1], results[j], k, schedule_tag, on_schedule, pulse_tag, on_pulse);
        if released_by(run, results, k, pulse_tag, id, j) {
            // released at j < m: gone from then on, so pass m could not release it
            assert(!scheduler_of(run[j + 1], k).pending().contains_key(id)) by {
                let d = scheduler_of(run[j], k);
                let d2 = scheduler_of(run[j + 1], k);
                assert(d2.pending() == still_waiting(d.pending(), H::pulse_time(run[j].queue()[0])->Some_0));
                assert(d2.last_released().contains(id) == (d.pending().contains_key(id)
                    && d.pending()[id].0 <= H::pulse_time(run[j].queue()[0])->Some_0));
            }
            assert(id < scheduler_of(run[j], k).next_id());
            lemma_gone_stays_gone(run, results, k, schedule_tag, on_schedule, pulse_tag, on_pulse, id, j + 1, m);
            lemma_hosted_upto(run, results, k, schedule_tag, on_schedule, pulse_tag, on_pulse, j + 1, m);
            lemma_scheduler_step(run[m], run[m + 1], results[m], k, schedule_tag, on_schedule, pulse_tag, on_pulse);
            let dm = scheduler_of(run[m], k);
            assert(scheduler_of(run[m + 1], k).last_released().contains(id) == (dm.pending().contains_key(id)
                && dm.pending()[id].0 <= H::pulse_time(run[m].queue()[0])->Some_0));
        }
    }
}

proof fn lemma_hosted_upto<S, M, H: DelayHost<S, M>>(
    run: Seq<System<S, M, H>>,
    results: Seq<bool>,
    k: ActorKey,
    schedule_tag: u64,
    on_schedule: H,
    pulse_tag: u64,
    on_pulse: H,
    a: int,
    b: int,
)
    requires
        run.len() == results.len() + 1,
        forall|j: int| 0 <= j < run.len() ==> (#[trigger] run[j]).wf(),
        forall|j: int|
            0 <= j < results.len() ==> System::stepped(run[j], run[j + 1], #[trigger] results[j]),
        0 <= a <= b < run.len(),
        hosts_scheduler(run[a], k, schedule_tag, on_schedule, pulse_tag, on_pulse),
    ensures
        hosts_scheduler(run[b], k, schedule_tag, on_schedule, pulse_tag, on_pulse),
        scheduler_of(run[b], k).next_id() >= scheduler_of(run[a], k).next_id(),
    decreases b - a,
{
    if a < b {
        lemma_hosted_upto(run, results, k, schedule_tag, on_schedule, pulse_tag, on_pulse, a, b - 1);
        assert(System::stepped(run[b - 1], run[b], results[b - 1]));
        lemma_scheduler_step(run[b - 1], run[b], results[b - 1], k, schedule_tag, on_schedule, pulse_tag, on_pulse);
    }
}

proof fn lemma_gone_stays_gone<S, M, H: DelayHost<S, M>>(
    run: Seq<System<S, M, H>>,
    results: Seq<bool>,
    k: ActorKey,
    schedule_tag: u64,
    on_schedule: H,
    pulse_tag: u64,
    on_pulse: H,
    id: u64,
    a: int,
    b: int,
)
    requires
        run.len() == results.len() + 1,
        forall|j: int| 0 <= j < run.len() ==> (#[trigger] run[j]).wf(),
        forall|j: int|
            0 <= j < results.len() ==> System::stepped(run[j], run[j + 1], #[trigger] results[j]),
        0 <= a <= b < run.len(),
        hosts_scheduler(run[a], k, schedule_tag, on_schedule, pulse_tag, on_pulse),
        id < scheduler_of(run[a], k).next_id(),
        !scheduler_of(run[a], k).pending().contains_key(id),
    ensures
        hosts_scheduler(run[b], k, schedule_tag, on_schedule, pulse_tag, on_pulse),
        id < scheduler_of(run[b], k).next_id(),
        !scheduler_of(run[b], k).pending().contains_key(id),
    decreases b - a,
{
    if a < b {
        lemma_gone_stays_gone(run, results, k, schedule_tag, on_schedule, pulse_tag, on_pulse, id, a, b - 1);
        assert(System::stepped(run[b - 1], run[b], results[b - 1]));
        lemma_scheduler_step(run[b - 1], run[b], results[b - 1], k, schedule_tag, on_schedule, pulse_tag, on_pulse);
    }
}

} // verus!
