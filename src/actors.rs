//! Actors, their mailboxes, and the dispatch loop.
use std::collections::VecDeque;
use vstd::prelude::*;

use crate::arena::{ActorKey, Arena};
use crate::registry::{
    create_all, fan_out, lemma_create_all, lemma_fan_out_owners, lemma_prune,
    lemma_register_all_appends, lemma_subscriptions_owner, lookup, prune, register_all, retain_living,
    lemma_survivors, lemma_survivors_keep, subscriptions, survivors, with_registration, Registration,
};

verus! {

/// What a handler decides about its actor after reacting to a message.
#[derive(Clone, Copy, Debug, PartialEq, Eq, Structural)]
pub enum Fate {
    /// The actor stays.
    Keep,
    /// The actor is removed once the current message has been handled.
    End,
}

/// A callback that an actor registers for one message tag.
///
/// The spec functions describe the reaction completely: the new state, the
/// fate, and what the handler appends to the mailbox. An implementation
/// states its reaction by defining them; the defaults name no particular
/// value, so `handle` can only be proved against definitions of its own.
pub trait Handler<S, M>: Sized {
    /// The tag under which a message is delivered.
    open spec fn tag_of(msg: M) -> u64 {
        arbitrary()
    }

    /// The actor's state after reacting to `msg`.
    open spec fn next_state(&self, state: S, msg: M) -> S {
        arbitrary()
    }

    /// Whether the actor survives reacting to `msg`.
    open spec fn fate(&self, state: S, msg: M) -> Fate {
        arbitrary()
    }

    /// The messages sent while reacting to `msg`, in order.
    open spec fn sent(&self, state: S, msg: M) -> Seq<M> {
        arbitrary()
    }

    /// The actors requested while reacting to `msg`, in order.
    open spec fn spawned(&self, state: S, msg: M) -> Seq<ActorData<S, Self>> {
        arbitrary()
    }

    fn tag(msg: &M) -> (t: u64)
        ensures
            t == Self::tag_of(*msg),
    ;

    fn handle(&self, state: &mut S, msg: &M, outbox: &mut SystemInterface<S, M, Self>) -> (fate:
        Fate)
        ensures
            *final(state) == self.next_state(*old(state), *msg),
            fate == self.fate(*old(state), *msg),
            final(outbox).outbox() == old(outbox).outbox() + self.sent(*old(state), *msg),
            final(outbox).new_actors() == old(outbox).new_actors() + self.spawned(
                *old(state),
                *msg,
            ),
    ;
}

/// The effects buffer: messages to enqueue and actors to instantiate.
pub struct SystemInterface<S, M, H> {
    outbox: VecDeque<M>,
    new_actors: VecDeque<ActorData<S, H>>,
}

impl<S, M, H> SystemInterface<S, M, H> {
    /// Messages waiting to be dispatched, oldest first.
    pub closed spec fn outbox(&self) -> Seq<M> {
        self.outbox@
    }

    /// Actors waiting to be instantiated, oldest first.
    pub closed spec fn new_actors(&self) -> Seq<ActorData<S, H>> {
        self.new_actors@
    }

    pub fn new() -> (r: Self)
        ensures
            r.outbox() == Seq::<M>::empty(),
            r.new_actors() == Seq::<ActorData<S, H>>::empty(),
    {
        SystemInterface { outbox: VecDeque::new(), new_actors: VecDeque::new() }
    }

    /// Enqueues a message; it is dispatched by a later pass.
    pub fn send(&mut self, msg: M)
        ensures
            final(self).outbox() == old(self).outbox().push(msg),
            final(self).new_actors() == old(self).new_actors(),
    {
        self.outbox.push_back(msg);
    }

    /// Enqueues a message that arrives boxed.
    pub fn send_boxed_ugly_needsfix(&mut self, msg: Box<M>)
        ensures
            final(self).outbox() == old(self).outbox().push(*msg),
            final(self).new_actors() == old(self).new_actors(),
    {
        self.outbox.push_back(*msg);
    }

    /// Requests an actor; it is instantiated at the end of the current pass.
    pub fn create_actor(&mut self, actor_data: ActorData<S, H>)
        ensures
            final(self).outbox() == old(self).outbox(),
            final(self).new_actors() == old(self).new_actors().push(actor_data),
    {
        self.new_actors.push_back(actor_data);
    }
}

/// An actor ready to be instantiated: its initial state and its handlers,
/// each under the tag it subscribes to.
pub struct ActorData<S, H> {
    init_state: S,
    handlers: VecDeque<(u64, H)>,
}

impl<S, H> ActorData<S, H> {
    pub closed spec fn state(&self) -> S {
        self.init_state
    }

    pub closed spec fn handlers(&self) -> Seq<(u64, H)> {
        self.handlers@
    }
}

/// Assembles an actor's initial state and handler set.
pub struct ActorBuilder<S, H> {
    init_state: S,
    handlers: VecDeque<(u64, H)>,
}

impl<S, H> ActorBuilder<S, H> {
    pub closed spec fn state(&self) -> S {
        self.init_state
    }

    pub closed spec fn handlers(&self) -> Seq<(u64, H)> {
        self.handlers@
    }

    pub fn new(init_state: S) -> (r: Self)
        ensures
            r.state() == init_state,
            r.handlers() == Seq::<(u64, H)>::empty(),
    {
        ActorBuilder { init_state, handlers: VecDeque::new() }
    }

    /// Adds a handler for messages under `tag`, after those already added.
    pub fn with_handler(self, tag: u64, handler: H) -> (r: Self)
        ensures
            r.state() == self.state(),
            r.handlers() == self.handlers().push((tag, handler)),
    {
        let mut b = self;
        b.handlers.push_back((tag, handler));
        b
    }

    pub fn build(self) -> (r: ActorData<S, H>)
        ensures
            r.state() == self.state(),
            r.handlers() == self.handlers(),
    {
        ActorData { init_state: self.init_state, handlers: self.handlers }
    }
}

/// The registrations of one message tag, in the order they were made.
struct TagEntry<H> {
    tag: u64,
    regs: VecDeque<Registration<H>>,
}

/// The actor system: the arena of states, the registry of handlers by tag,
/// and the input queue.
pub struct System<S, M, H> {
    state_store: Arena<S>,
    handlers: Vec<TagEntry<H>>,
    pub input_interface: SystemInterface<S, M, H>,
    registry: Ghost<Map<u64, Seq<Registration<H>>>>,
    created: Ghost<Seq<ActorKey>>,
}

impl<S, M, H: Handler<S, M>> System<S, M, H> {
    /// The live actors and their states.
    pub closed spec fn actors(&self) -> Map<ActorKey, S> {
        self.state_store@
    }

    /// Every actor key handed out so far, live or removed.
    pub closed spec fn issued(&self) -> Set<ActorKey> {
        self.state_store.issued()
    }

    /// Registrations by tag; a tag without registrations is absent.
    pub closed spec fn registry(&self) -> Map<u64, Seq<Registration<H>>> {
        self.registry@
    }

    /// The keys of the actors instantiated by the most recent pass, in order.
    pub closed spec fn last_created(&self) -> Seq<ActorKey> {
        self.created@
    }

    pub closed spec fn queue(&self) -> Seq<M> {
        self.input_interface.outbox()
    }

    pub closed spec fn pending(&self) -> Seq<ActorData<S, H>> {
        self.input_interface.new_actors()
    }

    pub open spec fn handlers_for(&self, tag: u64) -> Seq<Registration<H>> {
        if self.registry().contains_key(tag) {
            self.registry()[tag]
        } else {
            Seq::empty()
        }
    }

    pub closed spec fn wf(&self) -> bool {
        &&& self.state_store.wf()
        &&& forall|i: int|
            0 <= i < self.handlers@.len() ==> {
                &&& self.registry@.contains_key(#[trigger] self.handlers@[i].tag)
                &&& self.registry@[self.handlers@[i].tag] == self.handlers@[i].regs@
            }
        &&& forall|t: u64| #[trigger]
            self.registry@.contains_key(t) ==> exists|i: int|
                0 <= i < self.handlers@.len() && #[trigger] self.handlers@[i].tag == t
        &&& forall|i: int, j: int|
            0 <= i < self.handlers@.len() && 0 <= j < self.handlers@.len()
                && #[trigger] self.handlers@[i].tag == #[trigger] self.handlers@[j].tag ==> i == j
        &&& forall|t: u64| #[trigger] self.registry@.contains_key(t) ==> self.registry@[t].len() > 0
        &&& forall|t: u64, j: int|
            self.registry@.contains_key(t) && 0 <= j < self.registry@[t].len()
                ==> self.state_store@.contains_key(#[trigger] self.registry@[t][j].owner)
    }

    /// An empty system: no actors, no handlers, nothing queued.
    pub fn new() -> (r: Self)
        ensures
            r.wf(),
            r.actors() == Map::<ActorKey, S>::empty(),
            r.issued() == Set::<ActorKey>::empty(),
            r.registry() == Map::<u64, Seq<Registration<H>>>::empty(),
            r.queue() == Seq::<M>::empty(),
            r.pending() == Seq::<ActorData<S, H>>::empty(),
    {
        System {
            state_store: Arena::new(),
            handlers: Vec::new(),
            input_interface: SystemInterface::new(),
            registry: Ghost(Map::empty()),
            created: Ghost(Seq::empty()),
        }
    }

    /// Enqueues a message for a later pass.
    pub fn send(&mut self, msg: M)
        ensures
            final(self).queue() == old(self).queue().push(msg),
            final(self).pending() == old(self).pending(),
            final(self).actors() == old(self).actors(),
            final(self).registry() == old(self).registry(),
            final(self).issued() == old(self).issued(),
            old(self).wf() ==> final(self).wf(),
    {
        self.input_interface.send(msg);
        proof {
            if old(self).wf() {
                Self::lemma_wf_frame(*old(self), *self);
            }
        }
    }

    proof fn lemma_wf_frame(a: Self, b: Self)
        requires
            a.wf(),
            b.state_store.wf(),
            a.state_store@.dom().subset_of(b.state_store@.dom()),
            a.handlers == b.handlers,
            a.registry == b.registry,
        ensures
            b.wf(),
    {
        assert forall|t: u64| #[trigger] b.registry@.contains_key(t) implies exists|i: int|
            0 <= i < b.handlers@.len() && #[trigger] b.handlers@[i].tag == t by {
            let i = choose|i: int| 0 <= i < a.handlers@.len() && #[trigger] a.handlers@[i].tag == t;
            assert(b.handlers@[i].tag == t);
        }
        assert forall|t: u64, j: int|
            b.registry@.contains_key(t) && 0 <= j < b.registry@[t].len()
                implies b.state_store@.contains_key(#[trigger] b.registry@[t][j].owner) by {
            assert(a.state_store@.contains_key(a.registry@[t][j].owner));
        }
    }

    /// Removes the `dead` actors, then every registration they owned, under
    /// every tag; a tag left without registrations is dropped.
    fn bury(&mut self, dead: &Vec<ActorKey>)
        requires
            old(self).wf(),
        ensures
            final(self).wf(),
            final(self).actors() == old(self).actors().remove_keys(dead@.to_set()),
            final(self).registry() == prune(old(self).registry(), dead@.to_set()),
            final(self).issued() == old(self).issued(),
            final(self).input_interface == old(self).input_interface,
            final(self).last_created() == old(self).last_created(),
    {
        let ghost old_reg = self.registry@;
        let ghost gone = dead@.to_set();
        let ghost mut done: Set<u64> = Set::empty();
        let mut e: usize = 0;
        while e < self.handlers.len()
            invariant
                gone == dead@.to_set(),
                self.state_store == old(self).state_store,
                self.input_interface == old(self).input_interface,
                self.created == old(self).created,
                0 <= e <= self.handlers@.len(),
                forall|i: int|
                    0 <= i < self.handlers@.len() ==> {
                        &&& self.registry@.contains_key(#[trigger] self.handlers@[i].tag)
                        &&& self.registry@[self.handlers@[i].tag] == self.handlers@[i].regs@
                    },
                forall|t: u64| #[trigger]
                    self.registry@.contains_key(t) ==> exists|i: int|
                        0 <= i < self.handlers@.len() && #[trigger] self.handlers@[i].tag == t,
                forall|i: int, j: int|
                    0 <= i < self.handlers@.len() && 0 <= j < self.handlers@.len()
                        && #[trigger] self.handlers@[i].tag == #[trigger] self.handlers@[j].tag
                        ==> i == j,
                forall|t: u64| #[trigger]
                    self.registry@.contains_key(t) ==> self.registry@[t].len() > 0,
                forall|i: int| 0 <= i < e ==> done.contains(#[trigger] self.handlers@[i].tag),
                forall|i: int|
                    e <= i < self.handlers@.len() ==> !done.contains(#[trigger] self.handlers@[i].tag),
                forall|t: u64| #[trigger]
                    self.registry@.contains_key(t) == (old_reg.contains_key(t) && (done.contains(t)
                        ==> survivors(old_reg[t], gone).len() > 0)),
                forall|t: u64| #[trigger]
                    self.registry@.contains_key(t) ==> self.registry@[t] == (if done.contains(t) {
                        survivors(old_reg[t], gone)
                    } else {
                        old_reg[t]
                    }),
            decreases self.handlers@.len() - e,
        {
            let ghost t = self.handlers@[e as int].tag;
            let ghost pre = self.handlers@;
            retain_living(&mut self.handlers[e].regs, dead);
            proof {
                assert(self.handlers@[e as int].tag == t);
                assert(!done.contains(t));
                assert(self.handlers@[e as int].regs@ == survivors(old_reg[t], gone));
            }
            if self.handlers[e].regs.len() == 0 {
                let _ = self.handlers.remove(e);
                proof {
                    self.registry@ = self.registry@.remove(t);
                    done = done.insert(t);
                    assert forall|i: int|
                        0 <= i < self.handlers@.len() implies #[trigger] self.handlers@[i].tag != t by {
                        if i < e {
                            assert(pre[i] == self.handlers@[i]);
                        } else {
                            assert(pre[i + 1] == self.handlers@[i]);
                        }
                    }
                    assert forall|u: u64| #[trigger] self.registry@.contains_key(u) implies exists|i: int|
                        0 <= i < self.handlers@.len() && #[trigger] self.handlers@[i].tag == u by {
                        let i = choose|i: int| 0 <= i < pre.len() && #[trigger] pre[i].tag == u;
                        if i < e {
                            assert(self.handlers@[i].tag == u);
                        } else {
                            assert(self.handlers@[i - 1].tag == u);
                        }
                    }
                }
            } else {
                proof {
                    self.registry@ = self.registry@.insert(t, survivors(old_reg[t], gone));
                    done = done.insert(t);
                    assert forall|u: u64| #[trigger] self.registry@.contains_key(u) implies exists|i: int|
                        0 <= i < self.handlers@.len() && #[trigger] self.handlers@[i].tag == u by {
                        let i = choose|i: int| 0 <= i < pre.len() && #[trigger] pre[i].tag == u;
                        assert(self.handlers@[i].tag == u);
                    }
                }
                e += 1;
            }
        }
        proof {
            assert forall|t: u64| old_reg.contains_key(t) implies done.contains(t) by {
                if !done.contains(t) {
                    assert(self.registry@.contains_key(t));
                    let i = choose|i: int|
                        0 <= i < self.handlers@.len() && #[trigger] self.handlers@[i].tag == t;
                }
            }
            assert(self.registry@ =~= prune(old_reg, gone));
        }
        let ghost live = self.state_store@;
        let ghost reg_now = self.registry@;
        let ghost handlers_now = self.handlers@;
        let mut d: usize = 0;
        while d < dead.len()
            invariant
                gone == dead@.to_set(),
                0 <= d <= dead@.len(),
                self.state_store.wf(),
                self.state_store.issued() == old(self).state_store.issued(),
                self.state_store@ == live.remove_keys(dead@.take(d as int).to_set()),
                self.registry@ == reg_now,
                self.handlers@ == handlers_now,
                self.input_interface == old(self).input_interface,
                self.created == old(self).created,
            decreases dead@.len() - d,
        {
            let _ = self.state_store.remove(dead[d]);
            proof {
                assert(dead@.take(d as int + 1) =~= dead@.take(d as int) + seq![dead@[d as int]]);
                Seq::lemma_to_set_insert_commutes(dead@.take(d as int), dead@[d as int]);
                assert(dead@.take(d as int + 1).to_set() == dead@.take(d as int).to_set().insert(
                    dead@[d as int],
                ));
                assert(self.state_store@ =~= live.remove_keys(dead@.take(d as int + 1).to_set()));
            }
            d += 1;
        }
        proof {
            assert(dead@.take(dead@.len() as int) =~= dead@);
            assert forall|t: u64, j: int|
                self.registry@.contains_key(t) && 0 <= j < self.registry@[t].len()
                    implies self.state_store@.contains_key(#[trigger] self.registry@[t][j].owner) by {
                lemma_survivors(old_reg[t], gone);
                let x = self.registry@[t][j];
                assert(old_reg[t].contains(x));
                let m = choose|m: int| 0 <= m < old_reg[t].len() && old_reg[t][m] == x;
                assert(live.contains_key(old_reg[t][m].owner));
            }
        }
    }

    /// Instantiates an actor and registers its handlers in order.
    fn instantiate(&mut self, actor_data: ActorData<S, H>) -> (k: ActorKey)
        requires
            old(self).wf(),
        ensures
            final(self).wf(),
            !old(self).issued().contains(k),
            final(self).issued() == old(self).issued().insert(k),
            final(self).actors() == old(self).actors().insert(k, actor_data.state()),
            final(self).registry() == register_all(
                old(self).registry(),
                k,
                actor_data.handlers(),
                actor_data.handlers().len(),
            ),
            final(self).input_interface == old(self).input_interface,
            final(self).last_created() == old(self).last_created(),
    {
        let ActorData { init_state, handlers } = actor_data;
        let ghost all = handlers@;
        let k = self.state_store.insert(init_state);
        proof {
            Self::lemma_wf_frame(*old(self), *self);
        }
        let mut rest = handlers;
        let ghost mut n: nat = 0;
        while rest.len() > 0
            invariant
                self.wf(),
                n <= all.len(),
                rest@ == all.skip(n as int),
                self.issued() == old(self).issued().insert(k),
                self.actors() == old(self).actors().insert(k, actor_data.state()),
                self.registry() == register_all(old(self).registry(), k, all, n),
                self.input_interface == old(self).input_interface,
                self.last_created() == old(self).last_created(),
            decreases rest@.len(),
        {
            let (tag, handler) = rest.pop_front().unwrap();
            proof {
                assert(all[n as int] == (tag, handler));
            }
            self.register(tag, Registration { owner: k, handler });
            proof {
                n = n + 1;
                assert(rest@ =~= all.skip(n as int));
            }
        }
        proof {
            assert(all.skip(n as int).len() == 0);
        }
        k
    }

    /// Instantiates every pending actor, oldest first.
    fn spawn_pending(&mut self)
        requires
            old(self).wf(),
        ensures
            final(self).wf(),
            final(self).queue() == old(self).queue(),
            final(self).pending() == Seq::<ActorData<S, H>>::empty(),
            final(self).last_created().len() == old(self).pending().len(),
            final(self).last_created().no_duplicates(),
            forall|i: int|
                0 <= i < final(self).last_created().len() ==> !old(self).issued().contains(
                    #[trigger] final(self).last_created()[i],
                ),
            forall|k: ActorKey| #[trigger]
                final(self).issued().contains(k) == (old(self).issued().contains(k)
                    || final(self).last_created().contains(k)),
            (final(self).actors(), final(self).registry()) == create_all(
                old(self).actors(),
                old(self).registry(),
                old(self).pending(),
                final(self).last_created(),
            ),
    {
        let ghost born = self.pending();
        let ghost mut keys: Seq<ActorKey> = Seq::empty();
        while self.input_interface.new_actors.len() > 0
            invariant
                self.wf(),
                self.queue() == old(self).queue(),
                keys.len() <= born.len(),
                self.pending() == born.skip(keys.len() as int),
                keys.no_duplicates(),
                forall|i: int| 0 <= i < keys.len() ==> !old(self).issued().contains(#[trigger] keys[i]),
                forall|k: ActorKey| #[trigger]
                    self.issued().contains(k) == (old(self).issued().contains(k) || keys.contains(k)),
                (self.actors(), self.registry()) == create_all(
                    old(self).actors(),
                    old(self).registry(),
                    born,
                    keys,
                ),
            decreases self.pending().len(),
        {
            let ghost before = *self;
            let data = self.input_interface.new_actors.pop_front().unwrap();
            proof {
                assert(data == born[keys.len() as int]);
                Self::lemma_wf_frame(before, *self);
            }
            let ghost iss = self.issued();
            let k = self.instantiate(data);
            proof {
                assert(iss == before.issued());
                assert(!keys.contains(k)) by {
                    if keys.contains(k) {
                        assert(before.issued().contains(k) == (old(self).issued().contains(k)
                            || keys.contains(k)));
                        assert(iss.contains(k));
                    }
                }
                assert(!old(self).issued().contains(k)) by {
                    if old(self).issued().contains(k) {
                        assert(iss.contains(k));
                    }
                }
                let prev_keys = keys;
                keys = keys.push(k);
                assert(keys.drop_last() =~= prev_keys);
                assert forall|x: ActorKey| #[trigger]
                    self.issued().contains(x) == (old(self).issued().contains(x) || keys.contains(x)) by {
                    if x != k {
                        if keys.contains(x) {
                            let i = choose|i: int| 0 <= i < keys.len() && keys[i] == x;
                            assert(prev_keys[i] == x);
                        }
                        if prev_keys.contains(x) {
                            let i = choose|i: int| 0 <= i < prev_keys.len() && prev_keys[i] == x;
                            assert(keys[i] == x);
                        }
                    } else {
                        assert(keys[keys.len() - 1] == x);
                    }
                }
                assert(self.pending() =~= born.skip(keys.len() as int));
            }
        }
        proof {
            assert(keys.len() == born.len());
        }
        let ghost before = *self;
        self.created = Ghost(keys);
        proof {
            Self::lemma_wf_frame(before, *self);
            assert(self.issued() == before.issued());
            assert(self.last_created() == keys);
        }
    }

    /// What one pass does to the system when the queue was not empty: the
    /// head message is offered to the registrations of its tag as they stood
    /// when the pass began, the actors that ended are removed with all their
    /// registrations, and then the pending actors and those requested during
    /// the pass are instantiated under fresh keys, in request order.
    pub open spec fn dispatched(pre: Self, post: Self) -> bool {
        let msg = pre.queue()[0];
        let regs = pre.handlers_for(H::tag_of(msg));
        let pass = fan_out(pre.actors(), regs, msg, regs.len());
        let born = pre.pending() + pass.2;
        let keys = post.last_created();
        &&& post.queue() == pre.queue().drop_first() + pass.1
        &&& post.pending() == Seq::<ActorData<S, H>>::empty()
        &&& keys.len() == born.len()
        &&& keys.no_duplicates()
        &&& forall|i: int| 0 <= i < keys.len() ==> !pre.issued().contains(#[trigger] keys[i])
        &&& forall|k: ActorKey| #[trigger]
            post.issued().contains(k) == (pre.issued().contains(k) || keys.contains(k))
        &&& (post.actors(), post.registry()) == create_all(
            pass.0.remove_keys(pass.3),
            prune(pre.registry(), pass.3),
            born,
            keys,
        )
    }

    /// One call of `handle_one` that returned `r`: with an empty queue
    /// nothing changes and the result is false; otherwise one pass ran.
    pub open spec fn stepped(pre: Self, post: Self, r: bool) -> bool {
        &&& r == (pre.queue().len() > 0)
        &&& !r ==> {
            &&& post.actors() == pre.actors()
            &&& post.registry() == pre.registry()
            &&& post.issued() == pre.issued()
            &&& post.queue() == pre.queue()
            &&& post.pending() == pre.pending()
        }
        &&& r ==> Self::dispatched(pre, post)
    }

    /// Takes one message from the queue and feeds it to the handlers
    /// registered under its tag; returns false, changing nothing, when the
    /// queue is empty.
    pub fn handle_one(&mut self) -> (r: bool)
        requires
            old(self).wf(),
        ensures
            final(self).wf(),
            Self::stepped(*old(self), *final(self), r),
    {
        let msg = match self.input_interface.outbox.pop_front() {
            Some(m) => m,
            None => {
                return false;
            },
        };
        let ghost start = *self;
        proof {
            Self::lemma_wf_frame(*old(self), *self);
            assert(self.queue() =~= old(self).queue().drop_first());
        }
        let tag = H::tag(&msg);
        let mut i: usize = 0;
        while i < self.handlers.len() && self.handlers[i].tag != tag
            invariant
                0 <= i <= self.handlers@.len(),
                forall|j: int| 0 <= j < i ==> #[trigger] self.handlers@[j].tag != tag,
            decreases self.handlers@.len() - i,
        {
            i += 1;
        }
        let ghost regs = start.handlers_for(tag);
        let mut dead: Vec<ActorKey> = Vec::new();
        if i < self.handlers.len() {
            let n = self.handlers[i].regs.len();
            let mut j: usize = 0;
            while j < n
                invariant
                    start.wf(),
                    self.state_store.wf(),
                    self.state_store.issued() == start.state_store.issued(),
                    self.handlers == start.handlers,
                    self.registry == start.registry,
                    self.created == start.created,
                    i < self.handlers@.len(),
                    self.handlers@[i as int].tag == tag,
                    regs == self.handlers@[i as int].regs@,
                    n == regs.len(),
                    0 <= j <= n,
                    self.actors().dom() == start.actors().dom(),
                    self.actors() == fan_out(start.actors(), regs, msg, j as nat).0,
                    self.queue() == start.queue() + fan_out(start.actors(), regs, msg, j as nat).1,
                    self.pending() == start.pending() + fan_out(start.actors(), regs, msg, j as nat).2,
                    forall|x: ActorKey|
                        #[trigger] dead@.contains(x) == fan_out(start.actors(), regs, msg, j as nat).3.contains(x),
                decreases n - j,
            {
                let owner = self.handlers[i].regs[j].owner;
                let ghost dead_before = dead@;
                proof {
                    assert(start.registry@[tag][j as int].owner == owner);
                }
                let state = self.state_store.get_mut(owner);
                let fate = self.handlers[i].regs[j].handler.handle(state, &msg, &mut self.input_interface);
                if fate == Fate::End {
                    dead.push(owner);
                }
                proof {
                    let prev = fan_out(start.actors(), regs, msg, j as nat);
                    let cur = fan_out(start.actors(), regs, msg, (j + 1) as nat);
                    assert(self.actors() =~= cur.0);
                    assert(self.actors().dom() =~= start.actors().dom());
                    assert(self.queue() =~= start.queue() + cur.1);
                    assert(self.pending() =~= start.pending() + cur.2);
                    assert forall|x: ActorKey| #[trigger] dead@.contains(x) == cur.3.contains(x) by {
                        if fate == Fate::End {
                            assert(dead@ == dead_before.push(owner));
                            if x != owner && dead@.contains(x) {
                                let m = choose|m: int| 0 <= m < dead@.len() && dead@[m] == x;
                                assert(dead_before[m] == x);
                            }
                            if dead_before.contains(x) {
                                let m = choose|m: int| 0 <= m < dead_before.len() && dead_before[m] == x;
                                assert(dead@[m] == x);
                            }
                            assert(dead@[dead@.len() - 1] == owner);
                        }
                    }
                }
                j += 1;
            }
            proof {
                assert(regs.len() == n);
                Self::lemma_wf_frame(start, *self);
            }
        } else {
            proof {
                assert(!start.registry@.contains_key(tag)) by {
                    if start.registry@.contains_key(tag) {
                        let k = choose|k: int|
                            0 <= k < start.handlers@.len() && #[trigger] start.handlers@[k].tag == tag;
                    }
                }
                assert(self.actors() =~= fan_out(start.actors(), regs, msg, 0).0);
                assert(self.queue() =~= start.queue() + fan_out(start.actors(), regs, msg, 0).1);
                assert(self.pending() =~= start.pending() + fan_out(start.actors(), regs, msg, 0).2);
            }
        }
        let ghost pass = fan_out(start.actors(), regs, msg, regs.len());
        proof {
            assert(dead@.to_set() =~= pass.3);
        }
        self.bury(&dead);
        self.spawn_pending();
        true
    }

    /// The registrations offered the head message in the next pass.
    pub open spec fn offered(pre: Self) -> Seq<Registration<H>> {
        pre.handlers_for(H::tag_of(pre.queue()[0]))
    }

    /// The actors whose handler returns `End` in the next pass.
    pub open spec fn ending(pre: Self) -> Set<ActorKey> {
        let regs = Self::offered(pre);
        fan_out(pre.actors(), regs, pre.queue()[0], regs.len()).3
    }

    /// No handler sends anything in the next pass.
    pub open spec fn quiet_head(pre: Self) -> bool {
        let regs = Self::offered(pre);
        fan_out(pre.actors(), regs, pre.queue()[0], regs.len()).1.len() == 0
    }

    /// The actors requested for instantiation by the end of the next pass.
    pub open spec fn to_be_born(pre: Self) -> Seq<ActorData<S, H>> {
        let regs = Self::offered(pre);
        pre.pending() + fan_out(pre.actors(), regs, pre.queue()[0], regs.len()).2
    }

    /// Every registration belongs to a live actor, whose key has been issued.
    pub proof fn lemma_owners_issued(pre: Self)
        requires
            pre.wf(),
        ensures
            forall|t: u64, j: int|
                0 <= j < pre.handlers_for(t).len() ==> pre.issued().contains(
                    (#[trigger] pre.handlers_for(t)[j]).owner,
                ) && pre.actors().contains_key(pre.handlers_for(t)[j].owner),
    {
        pre.state_store.lemma_live_issued();
        assert forall|t: u64, j: int| 0 <= j < pre.handlers_for(t).len() implies pre.issued().contains(
            (#[trigger] pre.handlers_for(t)[j]).owner,
        ) && pre.actors().contains_key(pre.handlers_for(t)[j].owner) by {
            assert(pre.registry@.contains_key(t));
            assert(pre.state_store@.contains_key(pre.registry@[t][j].owner));
        }
    }

    /// Drain completeness: in a run of calls to `handle_one` that starts with
    /// `n` queued messages and in which no handler sends anything, the first
    /// `n` calls return true and the next one returns false.
    pub proof fn lemma_drain_completeness(run: Seq<Self>, results: Seq<bool>, n: nat)
        requires
            results.len() == n + 1,
            run.len() == results.len() + 1,
            run[0].queue().len() == n,
            forall|i: int|
                0 <= i < results.len() ==> Self::stepped(run[i], run[i + 1], #[trigger] results[i]),
            forall|i: int| 0 <= i < results.len() && #[trigger] results[i] ==> Self::quiet_head(run[i]),
        ensures
            forall|i: int| 0 <= i < n ==> #[trigger] results[i],
            !results[n as int],
    {
        Self::lemma_queue_shrinks(run, results, n, n);
        assert forall|i: int| 0 <= i < n implies #[trigger] results[i] by {
            Self::lemma_queue_shrinks(run, results, n, i as nat);
        }
    }

    proof fn lemma_queue_shrinks(run: Seq<Self>, results: Seq<bool>, n: nat, i: nat)
        requires
            results.len() == n + 1,
            run.len() == results.len() + 1,
            run[0].queue().len() == n,
            forall|k: int|
                0 <= k < results.len() ==> Self::stepped(run[k], run[k + 1], #[trigger] results[k]),
            forall|k: int| 0 <= k < results.len() && #[trigger] results[k] ==> Self::quiet_head(run[k]),
            i <= n,
        ensures
            run[i as int].queue().len() == n - i,
        decreases i,
    {
        if i > 0 {
            Self::lemma_queue_shrinks(run, results, n, (i - 1) as nat);
            let k = i - 1;
            assert(Self::stepped(run[k], run[k + 1], results[k]));
            assert(results[k]);
            assert(Self::quiet_head(run[k]));
        }
    }

    /// Termination cleanup: an actor whose handler returns `End` during a
    /// pass has, after it, neither a state nor a registration under any tag.
    pub proof fn lemma_ended_actor_removed(pre: Self, post: Self, a: ActorKey)
        requires
            pre.wf(),
            Self::dispatched(pre, post),
            Self::ending(pre).contains(a),
        ensures
            post.issued().contains(a),
            !post.actors().contains_key(a),
            forall|t: u64, j: int|
                0 <= j < post.handlers_for(t).len() ==> (#[trigger] post.handlers_for(t)[j]).owner
                    != a,
    {
        let msg = pre.queue()[0];
        let regs = Self::offered(pre);
        Self::lemma_owners_issued(pre);
        lemma_fan_out_owners(pre.actors(), regs, msg, regs.len());
        let pass = fan_out(pre.actors(), regs, msg, regs.len());
        let j0 = choose|j: int| 0 <= j < regs.len() && #[trigger] regs[j].owner == a;
        assert(pre.issued().contains(regs[j0].owner));
        Self::lemma_fresh_keys_avoid(pre, post, a);
        let base_reg = prune(pre.registry(), pass.3);
        lemma_prune(pre.registry(), pass.3);
        let keys = post.last_created();
        let ca = create_all(pass.0.remove_keys(pass.3), base_reg, Self::to_be_born(pre), keys);
        lemma_create_all(pass.0.remove_keys(pass.3), base_reg, Self::to_be_born(pre), keys);
        assert(post.actors() == ca.0 && post.registry() == ca.1);
        assert(ca.0.contains_key(a) == (pass.0.remove_keys(pass.3).contains_key(a) || keys.contains(a)));
        assert forall|t: u64, j: int|
            0 <= j < post.handlers_for(t).len() implies (#[trigger] post.handlers_for(t)[j]).owner != a by {
            assert(post.handlers_for(t) == lookup(ca.1, t));
            let x = lookup(ca.1, t)[j];
            assert(lookup(base_reg, t).contains(x) || keys.contains(x.owner));
            if lookup(base_reg, t).contains(x) {
                let m = choose|m: int| 0 <= m < lookup(base_reg, t).len() && lookup(base_reg, t)[m] == x;
                assert(!pass.3.contains(lookup(base_reg, t)[m].owner));
            }
        }
    }

    proof fn lemma_fresh_keys_avoid(pre: Self, post: Self, a: ActorKey)
        requires
            Self::dispatched(pre, post),
            pre.issued().contains(a),
        ensures
            !post.last_created().contains(a),
    {
        if post.last_created().contains(a) {
            let i = choose|i: int| 0 <= i < post.last_created().len() && post.last_created()[i] == a;
            assert(!pre.issued().contains(post.last_created()[i]));
        }
    }

    /// A removed actor stays removed: once a key has been issued and its
    /// actor is gone, no later call of `handle_one` gives it a state or a
    /// registration again, so none of its handlers fires any more.
    pub proof fn lemma_removed_actor_stays_gone(pre: Self, post: Self, r: bool, a: ActorKey)
        requires
            pre.wf(),
            Self::stepped(pre, post, r),
            pre.issued().contains(a),
            !pre.actors().contains_key(a),
        ensures
            post.issued().contains(a),
            !post.actors().contains_key(a),
            forall|t: u64, j: int|
                0 <= j < post.handlers_for(t).len() ==> (#[trigger] post.handlers_for(t)[j]).owner
                    != a,
    {
        Self::lemma_owners_issued(pre);
        if !r {
            assert forall|t: u64, j: int|
                0 <= j < post.handlers_for(t).len() implies (#[trigger] post.handlers_for(t)[j]).owner
                    != a by {
                assert(pre.handlers_for(t)[j] == post.handlers_for(t)[j]);
            }
        } else {
            let msg = pre.queue()[0];
            let regs = Self::offered(pre);
            lemma_fan_out_owners(pre.actors(), regs, msg, regs.len());
            let pass = fan_out(pre.actors(), regs, msg, regs.len());
            Self::lemma_fresh_keys_avoid(pre, post, a);
            let base_reg = prune(pre.registry(), pass.3);
            lemma_prune(pre.registry(), pass.3);
            let keys = post.last_created();
            let ca = create_all(pass.0.remove_keys(pass.3), base_reg, Self::to_be_born(pre), keys);
            lemma_create_all(pass.0.remove_keys(pass.3), base_reg, Self::to_be_born(pre), keys);
            assert(post.actors() == ca.0 && post.registry() == ca.1);
            assert(ca.0.contains_key(a) == (pass.0.remove_keys(pass.3).contains_key(a) || keys.contains(
                a,
            )));
            assert(!pass.0.contains_key(a));
            assert forall|t: u64, j: int|
                0 <= j < post.handlers_for(t).len() implies (#[trigger] post.handlers_for(t)[j]).owner
                    != a by {
                assert(post.handlers_for(t) == lookup(ca.1, t));
                let x = lookup(ca.1, t)[j];
                assert(lookup(base_reg, t).contains(x) || keys.contains(x.owner));
                if lookup(base_reg, t).contains(x) {
                    let m = choose|m: int| 0 <= m < lookup(base_reg, t).len() && lookup(base_reg, t)[m] == x;
                    assert(lookup(pre.registry(), t).contains(lookup(base_reg, t)[m]));
                    let m2 = choose|m2: int|
                        0 <= m2 < lookup(pre.registry(), t).len() && lookup(pre.registry(), t)[m2] == x;
                    assert(pre.handlers_for(t)[m2] == x);
                }
            }
        }
    }

    /// Termination cleanup over a run: if pass `m` of a run of `handle_one`
    /// calls ends actor `a`, then in every later state `a` has no state and no
    /// registration, so no later pass offers it any message, of any tag.
    pub proof fn lemma_ended_actor_never_offered(run: Seq<Self>, results: Seq<bool>, a: ActorKey, m: int)
        requires
            run.len() == results.len() + 1,
            forall|i: int| 0 <= i < run.len() ==> (#[trigger] run[i]).wf(),
            forall|i: int|
                0 <= i < results.len() ==> Self::stepped(run[i], run[i + 1], #[trigger] results[i]),
            0 <= m < results.len(),
            results[m],
            Self::ending(run[m]).contains(a),
        ensures
            forall|i: int|
                m < i < run.len() ==> !(#[trigger] run[i]).actors().contains_key(a) && forall|t: u64, j: int|
                    0 <= j < run[i].handlers_for(t).len() ==> (#[trigger] run[i].handlers_for(t)[j]).owner
                        != a,
            forall|i: int, j: int|
                m < i < results.len() && results[i] && 0 <= j < Self::offered(run[i]).len() ==> (
                #[trigger] Self::offered(#[trigger] run[i])[j]).owner != a,
    {
        assert(Self::stepped(run[m], run[m + 1], results[m]));
        Self::lemma_ended_actor_removed(run[m], run[m + 1], a);
        assert forall|i: int| m < i < run.len() implies !(#[trigger] run[i]).actors().contains_key(a)
            && forall|t: u64, j: int|
            0 <= j < run[i].handlers_for(t).len() ==> (#[trigger] run[i].handlers_for(t)[j]).owner != a by {
            Self::lemma_gone_from(run, results, a, m + 1, i);
        }
        assert forall|i: int, j: int|
            m < i < results.len() && results[i] && 0 <= j < Self::offered(run[i]).len() implies (
            #[trigger] Self::offered(#[trigger] run[i])[j]).owner != a by {
            Self::lemma_gone_from(run, results, a, m + 1, i);
            let t = H::tag_of(run[i].queue()[0]);
            assert(Self::offered(run[i]) == run[i].handlers_for(t));
        }
    }

    proof fn lemma_gone_from(run: Seq<Self>, results: Seq<bool>, a: ActorKey, b: int, i: int)
        requires
            run.len() == results.len() + 1,
            forall|k: int| 0 <= k < run.len() ==> (#[trigger] run[k]).wf(),
            forall|k: int|
                0 <= k < results.len() ==> Self::stepped(run[k], run[k + 1], #[trigger] results[k]),
            0 <= b <= i < run.len(),
            run[b].issued().contains(a),
            !run[b].actors().contains_key(a),
            forall|t: u64, j: int|
                0 <= j < run[b].handlers_for(t).len() ==> (#[trigger] run[b].handlers_for(t)[j]).owner
                    != a,
        ensures
            run[i].issued().contains(a),
            !run[i].actors().contains_key(a),
            forall|t: u64, j: int|
                0 <= j < run[i].handlers_for(t).len() ==> (#[trigger] run[i].handlers_for(t)[j]).owner
                    != a,
        decreases i - b,
    {
        if b < i {
            Self::lemma_gone_from(run, results, a, b, i - 1);
            assert(Self::stepped(run[i - 1], run[i], results[i - 1]));
            Self::lemma_removed_actor_stays_gone(run[i - 1], run[i], results[i - 1], a);
        }
    }

    /// A registration stays through a call of `handle_one` unless that call's
    /// pass ends its owner.
    pub proof fn lemma_registration_persists(pre: Self, post: Self, r: bool, t: u64, reg: Registration<H>)
        requires
            pre.wf(),
            Self::stepped(pre, post, r),
            pre.handlers_for(t).contains(reg),
            r ==> !Self::ending(pre).contains(reg.owner),
        ensures
            post.handlers_for(t).contains(reg),
    {
        if r {
            let msg = pre.queue()[0];
            let regs = Self::offered(pre);
            let pass = fan_out(pre.actors(), regs, msg, regs.len());
            let base_reg = prune(pre.registry(), pass.3);
            let keys = post.last_created();
            let ca = create_all(pass.0.remove_keys(pass.3), base_reg, Self::to_be_born(pre), keys);
            lemma_create_all(pass.0.remove_keys(pass.3), base_reg, Self::to_be_born(pre), keys);
            assert(post.registry() == ca.1);
            lemma_survivors_keep(pre.registry()[t], pass.3, reg);
            let p = lookup(base_reg, t);
            assert(p == survivors(pre.registry()[t], pass.3));
            let q = choose|q: int| 0 <= q < p.len() && p[q] == reg;
            assert(lookup(ca.1, t).subrange(0, p.len() as int)[q] == reg);
            assert(post.handlers_for(t)[q] == reg);
        }
    }

    /// Deferred visibility over a run: if pass `m` instantiates an actor with
    /// a handler under tag `t`, then as long as that actor does not end, every
    /// later pass whose message has tag `t` offers it to that handler.
    pub proof fn lemma_created_actor_receives(run: Seq<Self>, results: Seq<bool>, m: int, c: int, j: int, n: int)
        requires
            run.len() == results.len() + 1,
            forall|i: int| 0 <= i < run.len() ==> (#[trigger] run[i]).wf(),
            forall|i: int|
                0 <= i < results.len() ==> Self::stepped(run[i], run[i + 1], #[trigger] results[i]),
            0 <= m < n < results.len(),
            results[m],
            0 <= c < run[m + 1].last_created().len(),
            0 <= j < Self::to_be_born(run[m])[c].handlers().len(),
            forall|i: int|
                m < i < n && #[trigger] results[i] ==> !Self::ending(run[i]).contains(
                    run[m + 1].last_created()[c],
                ),
            results[n],
            H::tag_of(run[n].queue()[0]) == Self::to_be_born(run[m])[c].handlers()[j].0,
        ensures
            Self::offered(run[n]).contains(
                Registration {
                    owner: run[m + 1].last_created()[c],
                    handler: Self::to_be_born(run[m])[c].handlers()[j].1,
                },
            ),
    {
        let t = Self::to_be_born(run[m])[c].handlers()[j].0;
        let reg = Registration {
            owner: run[m + 1].last_created()[c],
            handler: Self::to_be_born(run[m])[c].handlers()[j].1,
        };
        assert(Self::stepped(run[m], run[m + 1], results[m]));
        Self::lemma_deferred_visibility(run[m], run[m + 1], c, j);
        Self::lemma_kept_until(run, results, m, c, t, reg, n, n);
        assert(Self::offered(run[n]) == run[n].handlers_for(t));
    }

    proof fn lemma_kept_until(
        run: Seq<Self>,
        results: Seq<bool>,
        m: int,
        c: int,
        t: u64,
        reg: Registration<H>,
        b: int,
        n: int,
    )
        requires
            run.len() == results.len() + 1,
            forall|i: int| 0 <= i < run.len() ==> (#[trigger] run[i]).wf(),
            forall|i: int|
                0 <= i < results.len() ==> Self::stepped(run[i], run[i + 1], #[trigger] results[i]),
            0 <= m < n < results.len(),
            0 <= c < run[m + 1].last_created().len(),
            reg.owner == run[m + 1].last_created()[c],
            forall|i: int|
                m < i < n && #[trigger] results[i] ==> !Self::ending(run[i]).contains(
                    run[m + 1].last_created()[c],
                ),
            m + 1 <= b <= n,
            run[m + 1].handlers_for(t).contains(reg),
        ensures
            run[b].handlers_for(t).contains(reg),
        decreases b - m,
    {
        if b > m + 1 {
            Self::lemma_kept_until(run, results, m, c, t, reg, b - 1, n);
            assert(Self::stepped(run[b - 1], run[b], results[b - 1]));
            Self::lemma_registration_persists(run[b - 1], run[b], results[b - 1], t, reg);
        }
    }

    /// Deferred visibility: an actor instantiated by a pass was not offered
    /// that pass's message, and afterwards each of its handlers is registered
    /// under its tag, so the next message of that tag reaches it.
    pub proof fn lemma_deferred_visibility(pre: Self, post: Self, i: int, j: int)
        requires
            pre.wf(),
            Self::dispatched(pre, post),
            0 <= i < post.last_created().len(),
            0 <= j < Self::to_be_born(pre)[i].handlers().len(),
        ensures
            forall|m: int|
                0 <= m < Self::offered(pre).len() ==> (#[trigger] Self::offered(pre)[m]).owner
                    != post.last_created()[i],
            post.handlers_for(Self::to_be_born(pre)[i].handlers()[j].0).contains(
                Registration {
                    owner: post.last_created()[i],
                    handler: Self::to_be_born(pre)[i].handlers()[j].1,
                },
            ),
            post.queue().len() > 0 && H::tag_of(post.queue()[0]) == Self::to_be_born(pre)[i].handlers()[j].0
                ==> Self::offered(post).contains(
                Registration {
                    owner: post.last_created()[i],
                    handler: Self::to_be_born(pre)[i].handlers()[j].1,
                },
            ),
    {
        let msg = pre.queue()[0];
        let regs = Self::offered(pre);
        Self::lemma_owners_issued(pre);
        let pass = fan_out(pre.actors(), regs, msg, regs.len());
        let born = Self::to_be_born(pre);
        lemma_create_all(
            pass.0.remove_keys(pass.3),
            prune(pre.registry(), pass.3),
            born,
            post.last_created(),
        );
        let ca = create_all(
            pass.0.remove_keys(pass.3),
            prune(pre.registry(), pass.3),
            born,
            post.last_created(),
        );
        assert(post.registry() == ca.1);
        let h = born[i].handlers()[j];
        assert(lookup(ca.1, h.0).contains(Registration { owner: post.last_created()[i], handler: h.1 }));
        assert(post.handlers_for(h.0) == lookup(ca.1, h.0));
        assert forall|m: int| 0 <= m < regs.len() implies (#[trigger] regs[m]).owner
            != post.last_created()[i] by {
            assert(pre.issued().contains(pre.handlers_for(H::tag_of(msg))[m].owner));
        }
    }

    /// Registration order: the handlers of an actor registered after another
    /// follow the other's under every tag they share, so a message of that
    /// tag reaches the earlier actor first.
    pub proof fn lemma_registration_order(
        registry: Map<u64, Seq<Registration<H>>>,
        a: ActorKey,
        first: Seq<(u64, H)>,
        b: ActorKey,
        second: Seq<(u64, H)>,
        i: int,
        j: int,
    )
        requires
            0 <= i < first.len(),
            0 <= j < second.len(),
            first[i].0 == second[j].0,
        ensures
            ({
                let t = first[i].0;
                let after = register_all(
                    register_all(registry, a, first, first.len()),
                    b,
                    second,
                    second.len(),
                );
                exists|x: int, y: int|
                    0 <= x < y < lookup(after, t).len() && lookup(after, t)[x] == Registration {
                        owner: a,
                        handler: first[i].1,
                    } && lookup(after, t)[y] == Registration { owner: b, handler: second[j].1 }
            }),
    {
        let t = first[i].0;
        let mid = register_all(registry, a, first, first.len());
        let after = register_all(mid, b, second, second.len());
        lemma_register_all_appends(registry, a, first, first.len());
        lemma_register_all_appends(mid, b, second, second.len());
        lemma_subscriptions_owner(a, first, first.len(), t);
        lemma_subscriptions_owner(b, second, second.len(), t);
        let sa = subscriptions(a, first, first.len(), t);
        let sb = subscriptions(b, second, second.len(), t);
        assert(lookup(after, t) == lookup(registry, t) + sa + sb);
        let ra = Registration { owner: a, handler: first[i].1 };
        let rb = Registration { owner: b, handler: second[j].1 };
        assert(sa.contains(ra));
        assert(sb.contains(rb));
        let x0 = choose|x0: int| 0 <= x0 < sa.len() && sa[x0] == ra;
        let y0 = choose|y0: int| 0 <= y0 < sb.len() && sb[y0] == rb;
        let x = lookup(registry, t).len() + x0;
        let y = lookup(registry, t).len() + sa.len() + y0;
        assert(lookup(after, t)[x] == ra);
        assert(lookup(after, t)[y] == rb);
    }

    /// Instantiates an actor and its handlers immediately.
    pub fn create_actor(&mut self, actor_data: ActorData<S, H>)
        requires
            old(self).wf(),
        ensures
            final(self).wf(),
            exists|k: ActorKey|
                {
                    &&& !old(self).issued().contains(k)
                    &&& final(self).issued() == old(self).issued().insert(k)
                    &&& final(self).actors() == old(self).actors().insert(k, actor_data.state())
                    &&& final(self).registry() == register_all(
                        old(self).registry(),
                        k,
                        actor_data.handlers(),
                        actor_data.handlers().len(),
                    )
                },
            final(self).queue() == old(self).queue(),
            final(self).pending() == old(self).pending(),
    {
        let _k = self.instantiate(actor_data);
    }

    /// Appends one registration under `tag`, creating the tag's collection
    /// when it has none.
    fn register(&mut self, tag: u64, reg: Registration<H>)
        requires
            old(self).wf(),
            old(self).actors().contains_key(reg.owner),
        ensures
            final(self).wf(),
            final(self).registry() == with_registration(old(self).registry(), tag, reg),
            final(self).actors() == old(self).actors(),
            final(self).issued() == old(self).issued(),
            final(self).input_interface == old(self).input_interface,
            final(self).last_created() == old(self).last_created(),
    {
        let ghost pre = self.registry@;
        let mut i: usize = 0;
        while i < self.handlers.len() && self.handlers[i].tag != tag
            invariant
                0 <= i <= self.handlers@.len(),
                forall|j: int| 0 <= j < i ==> #[trigger] self.handlers@[j].tag != tag,
            decreases self.handlers@.len() - i,
        {
            i += 1;
        }
        if i < self.handlers.len() {
            let ghost reg_g = reg;
            self.handlers[i].regs.push_back(reg);
            proof {
                self.registry@ = pre.insert(tag, pre[tag].push(reg_g));
                assert forall|t: u64| #[trigger] self.registry@.contains_key(t) implies exists|k: int|
                    0 <= k < self.handlers@.len() && #[trigger] self.handlers@[k].tag == t by {
                    if t != tag {
                        let k = choose|k: int|
                            0 <= k < old(self).handlers@.len() && #[trigger] old(self).handlers@[k].tag == t;
                        assert(self.handlers@[k].tag == t);
                    } else {
                        assert(self.handlers@[i as int].tag == t);
                    }
                }
            }
        } else {
            let ghost reg_g = reg;
            let mut regs = VecDeque::new();
            regs.push_back(reg);
            self.handlers.push(TagEntry { tag, regs });
            proof {
                assert(!pre.contains_key(tag));
                self.registry@ = pre.insert(tag, seq![reg_g]);
                assert(self.handlers@[i as int].regs@ =~= seq![reg_g]);
                assert forall|t: u64| #[trigger] self.registry@.contains_key(t) implies exists|k: int|
                    0 <= k < self.handlers@.len() && #[trigger] self.handlers@[k].tag == t by {
                    if t != tag {
                        let k = choose|k: int|
                            0 <= k < old(self).handlers@.len() && #[trigger] old(self).handlers@[k].tag == t;
                        assert(self.handlers@[k].tag == t);
                    } else {
                        assert(self.handlers@[i as int].tag == t);
                    }
                }
            }
        }
    }
}

} // verus!
