//! The registry of handlers by tag, and the model of one dispatch pass over
//! it: which registrations a message is offered to, which survive the pass,
//! and which the pass adds.
use std::collections::VecDeque;
use vstd::prelude::*;

use crate::actors::{ActorData, Fate, Handler};
use crate::arena::ActorKey;

verus! {

/// One subscription: the actor that owns it and its callback.
pub struct Registration<H> {
    pub owner: ActorKey,
    pub handler: H,
}

/// `reg` appended to the registrations under `tag`.
pub open spec fn with_registration<H>(
    registry: Map<u64, Seq<Registration<H>>>,
    tag: u64,
    reg: Registration<H>,
) -> Map<u64, Seq<Registration<H>>> {
    if registry.contains_key(tag) {
        registry.insert(tag, registry[tag].push(reg))
    } else {
        registry.insert(tag, seq![reg])
    }
}

/// The first `n` handlers of an actor registered under key `owner`.
pub open spec fn register_all<H>(
    registry: Map<u64, Seq<Registration<H>>>,
    owner: ActorKey,
    handlers: Seq<(u64, H)>,
    n: nat,
) -> Map<u64, Seq<Registration<H>>>
    decreases n,
{
    if n == 0 {
        registry
    } else {
        let prev = register_all(registry, owner, handlers, (n - 1) as nat);
        with_registration(
            prev,
            handlers[n - 1].0,
            Registration { owner, handler: handlers[n - 1].1 },
        )
    }
}

/// Offering `msg` to the first `n` registrations of `regs`, in order: the
/// states afterwards, the messages sent, the actors requested, and the
/// actors whose handler returned `End`.
pub open spec fn fan_out<S, M, H: Handler<S, M>>(
    states: Map<ActorKey, S>,
    regs: Seq<Registration<H>>,
    msg: M,
    n: nat,
) -> (Map<ActorKey, S>, Seq<M>, Seq<ActorData<S, H>>, Set<ActorKey>)
    decreases n,
{
    if n == 0 {
        (states, Seq::empty(), Seq::empty(), Set::empty())
    } else {
        let prev = fan_out(states, regs, msg, (n - 1) as nat);
        let r = regs[n - 1];
        let s = prev.0[r.owner];
        (
            prev.0.insert(r.owner, r.handler.next_state(s, msg)),
            prev.1 + r.handler.sent(s, msg),
            prev.2 + r.handler.spawned(s, msg),
            if r.handler.fate(s, msg) == Fate::End {
                prev.3.insert(r.owner)
            } else {
                prev.3
            },
        )
    }
}

/// The registrations of `regs` whose owner is not in `dead`, in order.
pub open spec fn survivors<H>(regs: Seq<Registration<H>>, dead: Set<ActorKey>) -> Seq<
    Registration<H>,
>
    decreases regs.len(),
{
    if regs.len() == 0 {
        regs
    } else {
        let sub = survivors(regs.drop_last(), dead);
        if dead.contains(regs.last().owner) {
            sub
        } else {
            sub.push(regs.last())
        }
    }
}

/// The registry without the registrations of `dead` actors; a tag left
/// without registrations is dropped.
pub open spec fn prune<H>(registry: Map<u64, Seq<Registration<H>>>, dead: Set<ActorKey>) -> Map<
    u64,
    Seq<Registration<H>>,
> {
    Map::new(
        |t: u64| registry.contains_key(t) && survivors(registry[t], dead).len() > 0,
        |t: u64| survivors(registry[t], dead),
    )
}

/// Instantiating `born[i]` under `keys[i]`, for each `i` below `keys.len()`.
pub open spec fn create_all<S, H>(
    states: Map<ActorKey, S>,
    registry: Map<u64, Seq<Registration<H>>>,
    born: Seq<ActorData<S, H>>,
    keys: Seq<ActorKey>,
) -> (Map<ActorKey, S>, Map<u64, Seq<Registration<H>>>)
    decreases keys.len(),
{
    if keys.len() == 0 {
        (states, registry)
    } else {
        let n = keys.len() - 1;
        let prev = create_all(states, registry, born, keys.drop_last());
        (
            prev.0.insert(keys[n], born[n].state()),
            register_all(prev.1, keys[n], born[n].handlers(), born[n].handlers().len()),
        )
    }
}

pub(crate) proof fn lemma_survivors<H>(regs: Seq<Registration<H>>, dead: Set<ActorKey>)
    ensures
        forall|j: int|
            0 <= j < survivors(regs, dead).len() ==> {
                &&& regs.contains(#[trigger] survivors(regs, dead)[j])
                &&& !dead.contains(survivors(regs, dead)[j].owner)
            },
    decreases regs.len(),
{
    if regs.len() > 0 {
        lemma_survivors(regs.drop_last(), dead);
        let sub = survivors(regs.drop_last(), dead);
        assert forall|j: int| 0 <= j < sub.len() implies regs.contains(#[trigger] sub[j]) by {
            let m = choose|m: int| 0 <= m < regs.drop_last().len() && regs.drop_last()[m] == sub[j];
            assert(regs[m] == sub[j]);
        }
        assert(regs[regs.len() - 1] == regs.last());
    }
}

/// Whether `k` occurs in `keys`.
fn listed(keys: &Vec<ActorKey>, k: ActorKey) -> (r: bool)
    ensures
        r == keys@.contains(k),
{
    let mut i: usize = 0;
    while i < keys.len()
        invariant
            0 <= i <= keys@.len(),
            forall|j: int| 0 <= j < i ==> keys@[j] != k,
        decreases keys@.len() - i,
    {
        if keys[i] == k {
            return true;
        }
        i += 1;
    }
    false
}

/// Drops, in place and in order, the registrations owned by an actor in `dead`.
pub(crate) fn retain_living<H>(regs: &mut VecDeque<Registration<H>>, dead: &Vec<ActorKey>)
    ensures
        final(regs)@ == survivors(old(regs)@, dead@.to_set()),
{
    let ghost all = regs@;
    let ghost gone = dead@.to_set();
    let n = regs.len();
    let mut j: usize = 0;
    while j < n
        invariant
            n == all.len(),
            gone == dead@.to_set(),
            0 <= j <= n,
            regs@ == all.skip(j as int) + survivors(all.take(j as int), gone),
        decreases n - j,
    {
        let r = regs.pop_front().unwrap();
        proof {
            assert(all.take(j as int + 1).drop_last() =~= all.take(j as int));
            assert(r == all[j as int]);
            assert(all.take(j as int + 1).last() == r);
            assert(gone.contains(r.owner) == dead@.contains(r.owner));
            assert(all.skip(j as int) =~= seq![r] + all.skip(j as int + 1));
            assert(regs@ =~= all.skip(j as int + 1) + survivors(all.take(j as int), gone));
        }
        if !listed(dead, r.owner) {
            regs.push_back(r);
        }
        proof {
            assert(regs@ =~= all.skip(j as int + 1) + survivors(all.take(j as int + 1), gone));
        }
        j += 1;
    }
    proof {
        assert(all.take(n as int) =~= all);
        assert(regs@ =~= survivors(all, gone));
    }
}

/// The registrations under `t`, empty when the tag has none.
pub open spec fn lookup<H>(registry: Map<u64, Seq<Registration<H>>>, t: u64) -> Seq<
    Registration<H>,
> {
    if registry.contains_key(t) {
        registry[t]
    } else {
        Seq::empty()
    }
}

/// The registrations that the first `n` of `handlers` make under `t` for
/// `owner`, in order.
pub open spec fn subscriptions<H>(owner: ActorKey, handlers: Seq<(u64, H)>, n: nat, t: u64) -> Seq<
    Registration<H>,
>
    decreases n,
{
    if n == 0 {
        Seq::empty()
    } else {
        let prev = subscriptions(owner, handlers, (n - 1) as nat, t);
        if handlers[n - 1].0 == t {
            prev.push(Registration { owner, handler: handlers[n - 1].1 })
        } else {
            prev
        }
    }
}

/// Registering appends: under every tag, the new registrations follow the
/// old ones in handler order, and no tag loses its collection.
pub proof fn lemma_register_all_appends<H>(
    registry: Map<u64, Seq<Registration<H>>>,
    owner: ActorKey,
    handlers: Seq<(u64, H)>,
    n: nat,
)
    requires
        n <= handlers.len(),
    ensures
        forall|t: u64|
            #[trigger] lookup(register_all(registry, owner, handlers, n), t) == lookup(registry, t)
                + subscriptions(owner, handlers, n, t),
        forall|t: u64|
            registry.contains_key(t) ==> #[trigger] register_all(
                registry,
                owner,
                handlers,
                n,
            ).contains_key(t),
    decreases n,
{
    if n > 0 {
        lemma_register_all_appends(registry, owner, handlers, (n - 1) as nat);
        let prev = register_all(registry, owner, handlers, (n - 1) as nat);
        let t0 = handlers[n - 1].0;
        let r = Registration { owner, handler: handlers[n - 1].1 };
        assert forall|t: u64|
            #[trigger] lookup(register_all(registry, owner, handlers, n), t) == lookup(registry, t)
                + subscriptions(owner, handlers, n, t) by {
            assert(lookup(prev, t) == lookup(registry, t) + subscriptions(
                owner,
                handlers,
                (n - 1) as nat,
                t,
            ));
            if t == t0 {
                assert(lookup(registry, t) + subscriptions(owner, handlers, n, t) =~= (lookup(
                    registry,
                    t,
                ) + subscriptions(owner, handlers, (n - 1) as nat, t)).push(r));
            }
        }
    }
}

pub(crate) proof fn lemma_subscriptions_owner<H>(
    owner: ActorKey,
    handlers: Seq<(u64, H)>,
    n: nat,
    t: u64,
)
    requires
        n <= handlers.len(),
    ensures
        forall|j: int|
            0 <= j < subscriptions(owner, handlers, n, t).len() ==> (#[trigger] subscriptions(
                owner,
                handlers,
                n,
                t,
            )[j]).owner == owner,
        forall|j: int|
            0 <= j < n && handlers[j].0 == t ==> #[trigger] subscriptions(
                owner,
                handlers,
                n,
                t,
            ).contains(Registration { owner, handler: handlers[j].1 }),
    decreases n,
{
    if n > 0 {
        lemma_subscriptions_owner(owner, handlers, (n - 1) as nat, t);
        let prev = subscriptions(owner, handlers, (n - 1) as nat, t);
        let cur = subscriptions(owner, handlers, n, t);
        assert forall|j: int| 0 <= j < n && handlers[j].0 == t implies #[trigger] subscriptions(
            owner,
            handlers,
            n,
            t,
        ).contains(Registration { owner, handler: handlers[j].1 }) by {
            let r = Registration { owner, handler: handlers[j].1 };
            if j < n - 1 {
                assert(prev.contains(r));
                let m = choose|m: int| 0 <= m < prev.len() && prev[m] == r;
                if handlers[n - 1].0 == t {
                    assert(cur[m] == prev[m]);
                } else {
                    assert(cur == prev);
                }
            } else {
                assert(cur[cur.len() - 1] == Registration { owner, handler: handlers[j].1 });
            }
        }
    }
}

/// Instantiating actors keeps every registration that was there and adds
/// each new actor's handlers under their tags; the registry holds no other
/// owners than the old ones and the new keys.
pub proof fn lemma_create_all<S, H>(
    states: Map<ActorKey, S>,
    registry: Map<u64, Seq<Registration<H>>>,
    born: Seq<ActorData<S, H>>,
    keys: Seq<ActorKey>,
)
    requires
        keys.len() <= born.len(),
    ensures
        forall|t: u64|
            #[trigger] lookup(create_all(states, registry, born, keys).1, t).len() >= lookup(
                registry,
                t,
            ).len() && lookup(registry, t) == lookup(create_all(states, registry, born, keys).1, t).subrange(
                0,
                lookup(registry, t).len() as int,
            ),
        forall|i: int, j: int|
            0 <= i < keys.len() && 0 <= j < born[i].handlers().len() ==> #[trigger] lookup(
                create_all(states, registry, born, keys).1,
                born[i].handlers()[j].0,
            ).contains(Registration { owner: keys[i], handler: (#[trigger] born[i].handlers()[j]).1 }),
        forall|t: u64, j: int|
            0 <= j < lookup(create_all(states, registry, born, keys).1, t).len() ==> {
                let o = (#[trigger] lookup(create_all(states, registry, born, keys).1, t)[j]).owner;
                lookup(registry, t).contains(lookup(create_all(states, registry, born, keys).1, t)[j])
                    || keys.contains(o)
            },
        forall|k: ActorKey| #[trigger]
            create_all(states, registry, born, keys).0.contains_key(k) == (states.contains_key(k)
                || keys.contains(k)),
        forall|k: ActorKey|
            states.contains_key(k) && !keys.contains(k) ==> #[trigger] create_all(
                states,
                registry,
                born,
                keys,
            ).0[k] == states[k],
        forall|t: u64, j: int|
            lookup(registry, t).len() <= j < lookup(create_all(states, registry, born, keys).1, t).len()
                ==> keys.contains(
                (#[trigger] lookup(create_all(states, registry, born, keys).1, t)[j]).owner,
            ),
    decreases keys.len(),
{
    if keys.len() > 0 {
        let n = keys.len() - 1;
        let prevk = keys.drop_last();
        lemma_create_all(states, registry, born, prevk);
        let prev = create_all(states, registry, born, prevk);
        let d = born[n];
        let k = keys[n];
        let cur = create_all(states, registry, born, keys);
        lemma_register_all_appends(prev.1, k, d.handlers(), d.handlers().len());
        lemma_subscriptions_owner(k, d.handlers(), d.handlers().len(), 0);
        assert forall|t: u64|
            #[trigger] lookup(cur.1, t).len() >= lookup(registry, t).len() && lookup(registry, t)
                == lookup(cur.1, t).subrange(0, lookup(registry, t).len() as int) by {
            assert(lookup(cur.1, t) == lookup(prev.1, t) + subscriptions(
                k,
                d.handlers(),
                d.handlers().len(),
                t,
            ));
            assert(lookup(prev.1, t).subrange(0, lookup(registry, t).len() as int) =~= lookup(
                cur.1,
                t,
            ).subrange(0, lookup(registry, t).len() as int));
        }
        assert forall|i: int, j: int|
            0 <= i < keys.len() && 0 <= j < born[i].handlers().len() implies #[trigger] lookup(
                cur.1,
                born[i].handlers()[j].0,
            ).contains(Registration { owner: keys[i], handler: (#[trigger] born[i].handlers()[j]).1 }) by {
            let t = born[i].handlers()[j].0;
            let r = Registration { owner: keys[i], handler: born[i].handlers()[j].1 };
            assert(lookup(cur.1, t) == lookup(prev.1, t) + subscriptions(
                k,
                d.handlers(),
                d.handlers().len(),
                t,
            ));
            if i < n {
                assert(prevk[i] == keys[i]);
                assert(lookup(prev.1, t).contains(r));
                let m = choose|m: int| 0 <= m < lookup(prev.1, t).len() && lookup(prev.1, t)[m] == r;
                assert(lookup(cur.1, t)[m] == r);
            } else {
                lemma_subscriptions_owner(k, d.handlers(), d.handlers().len(), t);
                let subs = subscriptions(k, d.handlers(), d.handlers().len(), t);
                assert(subs.contains(r));
                let m = choose|m: int| 0 <= m < subs.len() && subs[m] == r;
                assert(lookup(cur.1, t)[lookup(prev.1, t).len() + m] == r);
            }
        }
        assert forall|t: u64, j: int| 0 <= j < lookup(cur.1, t).len() implies {
            let o = (#[trigger] lookup(cur.1, t)[j]).owner;
            lookup(registry, t).contains(lookup(cur.1, t)[j]) || keys.contains(o)
        } by {
            let x = lookup(cur.1, t)[j];
            assert(lookup(cur.1, t) == lookup(prev.1, t) + subscriptions(
                k,
                d.handlers(),
                d.handlers().len(),
                t,
            ));
            if j < lookup(prev.1, t).len() {
                assert(lookup(prev.1, t)[j] == x);
                if prevk.contains(x.owner) {
                    let m = choose|m: int| 0 <= m < prevk.len() && prevk[m] == x.owner;
                    assert(keys[m] == x.owner);
                }
            } else {
                lemma_subscriptions_owner(k, d.handlers(), d.handlers().len(), t);
                let subs = subscriptions(k, d.handlers(), d.handlers().len(), t);
                assert(subs[j - lookup(prev.1, t).len()] == x);
                assert(keys[n] == x.owner);
            }
        }
        assert forall|x: ActorKey|
            states.contains_key(x) && !keys.contains(x) implies #[trigger] cur.0[x] == states[x] by {
            if prevk.contains(x) {
                let m = choose|m: int| 0 <= m < prevk.len() && prevk[m] == x;
                assert(keys[m] == x);
            }
            assert(keys[n] != x);
        }
        assert forall|t: u64, j: int|
            lookup(registry, t).len() <= j < lookup(cur.1, t).len() implies keys.contains(
                (#[trigger] lookup(cur.1, t)[j]).owner,
            ) by {
            let x = lookup(cur.1, t)[j];
            assert(lookup(cur.1, t) == lookup(prev.1, t) + subscriptions(
                k,
                d.handlers(),
                d.handlers().len(),
                t,
            ));
            if j < lookup(prev.1, t).len() {
                assert(lookup(prev.1, t)[j] == x);
                assert(prevk.contains(x.owner));
                let m = choose|m: int| 0 <= m < prevk.len() && prevk[m] == x.owner;
                assert(keys[m] == x.owner);
            } else {
                lemma_subscriptions_owner(k, d.handlers(), d.handlers().len(), t);
                let subs = subscriptions(k, d.handlers(), d.handlers().len(), t);
                assert(subs[j - lookup(prev.1, t).len()] == x);
                assert(keys[n] == x.owner);
            }
        }
        assert forall|x: ActorKey| #[trigger]
            cur.0.contains_key(x) == (states.contains_key(x) || keys.contains(x)) by {
            if prevk.contains(x) {
                let m = choose|m: int| 0 <= m < prevk.len() && prevk[m] == x;
                assert(keys[m] == x);
            }
            if keys.contains(x) && x != k {
                let m = choose|m: int| 0 <= m < keys.len() && keys[m] == x;
                assert(prevk[m] == x);
            }
        }
    }
}

/// A pass leaves the set of actors as it was, when every registration it
/// offers the message to belongs to a live actor; the ended actors are
/// owners of those registrations.
pub proof fn lemma_fan_out_owners<S, M, H: Handler<S, M>>(
    states: Map<ActorKey, S>,
    regs: Seq<Registration<H>>,
    msg: M,
    n: nat,
)
    requires
        n <= regs.len(),
        forall|j: int| 0 <= j < regs.len() ==> states.contains_key(#[trigger] regs[j].owner),
    ensures
        fan_out(states, regs, msg, n).0.dom() == states.dom(),
        forall|a: ActorKey| #[trigger]
            fan_out(states, regs, msg, n).3.contains(a) ==> exists|j: int|
                0 <= j < n && #[trigger] regs[j].owner == a,
    decreases n,
{
    if n > 0 {
        lemma_fan_out_owners(states, regs, msg, (n - 1) as nat);
        let prev = fan_out(states, regs, msg, (n - 1) as nat);
        assert(prev.0.contains_key(regs[n - 1].owner));
        assert(fan_out(states, regs, msg, n).0.dom() =~= states.dom());
        assert forall|a: ActorKey| #[trigger]
            fan_out(states, regs, msg, n).3.contains(a) implies exists|j: int|
                0 <= j < n && #[trigger] regs[j].owner == a by {
            if prev.3.contains(a) {
                let j = choose|j: int| 0 <= j < n - 1 && #[trigger] regs[j].owner == a;
                assert(regs[j].owner == a);
            } else {
                assert(regs[n - 1].owner == a);
            }
        }
    }
}

/// Every registration left by pruning was there before, and its owner is
/// not among the removed.
pub proof fn lemma_prune<H>(registry: Map<u64, Seq<Registration<H>>>, dead: Set<ActorKey>)
    ensures
        forall|t: u64, j: int|
            0 <= j < lookup(prune(registry, dead), t).len() ==> {
                &&& lookup(registry, t).contains(#[trigger] lookup(prune(registry, dead), t)[j])
                &&& !dead.contains(lookup(prune(registry, dead), t)[j].owner)
            },
{
    assert forall|t: u64, j: int| 0 <= j < lookup(prune(registry, dead), t).len() implies {
        &&& lookup(registry, t).contains(#[trigger] lookup(prune(registry, dead), t)[j])
        &&& !dead.contains(lookup(prune(registry, dead), t)[j].owner)
    } by {
        lemma_survivors(registry[t], dead);
        assert(lookup(prune(registry, dead), t) == survivors(registry[t], dead));
    }
}

/// The handlers that `k` owns among `regs`, in order.
pub open spec fn owned<H>(regs: Seq<Registration<H>>, k: ActorKey) -> Seq<H>
    decreases regs.len(),
{
    if regs.len() == 0 {
        Seq::empty()
    } else {
        let sub = owned(regs.drop_last(), k);
        if regs.last().owner == k {
            sub.push(regs.last().handler)
        } else {
            sub
        }
    }
}

pub proof fn lemma_owned_concat<H>(a: Seq<Registration<H>>, b: Seq<Registration<H>>, k: ActorKey)
    ensures
        owned(a + b, k) == owned(a, k) + owned(b, k),
    decreases b.len(),
{
    if b.len() == 0 {
        assert(a + b =~= a);
        assert(owned(a, k) + owned(b, k) =~= owned(a, k));
    } else {
        lemma_owned_concat(a, b.drop_last(), k);
        assert((a + b).drop_last() =~= a + b.drop_last());
        assert((a + b).last() == b.last());
        assert(owned(a + b, k) =~= owned(a, k) + owned(b, k));
    }
}

pub proof fn lemma_owned_none<H>(regs: Seq<Registration<H>>, k: ActorKey)
    requires
        forall|j: int| 0 <= j < regs.len() ==> (#[trigger] regs[j]).owner != k,
    ensures
        owned(regs, k) == Seq::<H>::empty(),
    decreases regs.len(),
{
    if regs.len() > 0 {
        assert forall|j: int| 0 <= j < regs.drop_last().len() implies (
        #[trigger] regs.drop_last()[j]).owner != k by {
            assert(regs.drop_last()[j] == regs[j]);
        }
        lemma_owned_none(regs.drop_last(), k);
        assert(regs[regs.len() - 1].owner != k);
    }
}

pub proof fn lemma_owned_survivors<H>(regs: Seq<Registration<H>>, dead: Set<ActorKey>, k: ActorKey)
    requires
        !dead.contains(k),
    ensures
        owned(survivors(regs, dead), k) == owned(regs, k),
    decreases regs.len(),
{
    if regs.len() > 0 {
        lemma_owned_survivors(regs.drop_last(), dead, k);
        let sub = survivors(regs.drop_last(), dead);
        if !dead.contains(regs.last().owner) {
            assert(sub.push(regs.last()).drop_last() =~= sub);
        }
    }
}

/// Within a pass, an actor that owns no registration among those offered
/// keeps its state and does not end; one that owns exactly one reacts once,
/// and what that registration sends lies in one piece inside what the pass
/// sends.
pub proof fn lemma_fan_out_owner<S, M, H: Handler<S, M>>(
    states: Map<ActorKey, S>,
    regs: Seq<Registration<H>>,
    msg: M,
    n: nat,
    k: ActorKey,
)
    requires
        n <= regs.len(),
        owned(regs.take(n as int), k).len() <= 1,
    ensures
        owned(regs.take(n as int), k).len() == 0 ==> {
            &&& fan_out(states, regs, msg, n).0[k] == states[k]
            &&& !fan_out(states, regs, msg, n).3.contains(k)
        },
        owned(regs.take(n as int), k).len() == 1 ==> {
            let h = owned(regs.take(n as int), k)[0];
            &&& fan_out(states, regs, msg, n).0[k] == h.next_state(states[k], msg)
            &&& fan_out(states, regs, msg, n).3.contains(k) == (h.fate(states[k], msg) == Fate::End)
            &&& exists|a: Seq<M>, b: Seq<M>|
                fan_out(states, regs, msg, n).1 == a + h.sent(states[k], msg) + b
        },
    decreases n,
{
    if n > 0 {
        let t = regs.take(n as int);
        assert(t.drop_last() =~= regs.take(n - 1));
        assert(t.last() == regs[n - 1]);
        let r = regs[n - 1];
        let prev = fan_out(states, regs, msg, (n - 1) as nat);
        let cur = fan_out(states, regs, msg, n);
        if r.owner == k {
            assert(owned(regs.take(n - 1), k).len() == 0);
            lemma_fan_out_owner(states, regs, msg, (n - 1) as nat, k);
            assert(owned(t, k)[0] == r.handler);
            assert(cur.1 == prev.1 + r.handler.sent(states[k], msg) + Seq::<M>::empty());
        } else {
            lemma_fan_out_owner(states, regs, msg, (n - 1) as nat, k);
            if owned(t, k).len() == 1 {
                let h = owned(t, k)[0];
                let (a, b) = choose|a: Seq<M>, b: Seq<M>|
                    prev.1 == a + h.sent(states[k], msg) + b;
                let s = r.handler.sent(prev.0[r.owner], msg);
                assert(cur.1 =~= a + h.sent(states[k], msg) + (b + s));
            }
        }
    } else {
        assert(regs.take(0) =~= Seq::<Registration<H>>::empty());
    }
}

/// Pruning keeps every registration whose owner is not removed.
pub proof fn lemma_survivors_keep<H>(regs: Seq<Registration<H>>, dead: Set<ActorKey>, x: Registration<H>)
    requires
        regs.contains(x),
        !dead.contains(x.owner),
    ensures
        survivors(regs, dead).contains(x),
    decreases regs.len(),
{
    let sub = survivors(regs.drop_last(), dead);
    if regs.last() == x {
        assert(sub.push(x)[sub.len() as int] == x);
    } else {
        let m = choose|m: int| 0 <= m < regs.len() && regs[m] == x;
        assert(regs.drop_last()[m] == x);
        lemma_survivors_keep(regs.drop_last(), dead, x);
        let q = choose|q: int| 0 <= q < sub.len() && sub[q] == x;
        if !dead.contains(regs.last().owner) {
            assert(sub.push(regs.last())[q] == x);
        }
    }
}

} // verus!
