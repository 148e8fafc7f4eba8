use std::sync::mpsc::{channel, Sender};

use actorcore::actors::{ActorBuilder, Fate, Handler, System, SystemInterface};
use actorcore::delay::{delay_from_now, init_delay_handler, DelayHost, DelayScheduler, DelayUntil};

const PULSE: u64 = 0;
const SCHEDULE: u64 = 1;
const PING: u64 = 2;

#[derive(Clone)]
enum Msg {
    /// The periodic pulse, carrying the current time in milliseconds.
    Pulse(u64),
    Schedule(Box<DelayUntil<Msg>>),
    Ping(u32),
}

enum State {
    Timers(DelayScheduler<Msg>),
    Log(Sender<(u64, u32)>, u64),
}

#[derive(Clone, Copy)]
enum Behavior {
    Schedule,
    Release,
    /// Remembers the pulse time.
    Clock,
    /// Logs each ping with the last pulse time seen.
    Record,
}

type Mailbox = SystemInterface<State, Msg, Behavior>;

impl Handler<State, Msg> for Behavior {
    fn tag(msg: &Msg) -> u64 {
        match msg {
            Msg::Pulse(_) => PULSE,
            Msg::Schedule(_) => SCHEDULE,
            Msg::Ping(_) => PING,
        }
    }

    fn handle(&self, state: &mut State, msg: &Msg, outbox: &mut Mailbox) -> Fate {
        match (self, state, msg) {
            (Behavior::Schedule, State::Timers(timers), Msg::Schedule(request)) => {
                if timers.upcoming_id() < u64::MAX {
                    timers.schedule(DelayUntil(request.0, request.1.clone()));
                }
            }
            (Behavior::Release, State::Timers(timers), Msg::Pulse(now)) => {
                timers.release_into(*now, outbox);
            }
            (Behavior::Clock, State::Log(_, clock), Msg::Pulse(now)) => {
                *clock = *now;
            }
            (Behavior::Record, State::Log(tx, clock), Msg::Ping(p)) => {
                tx.send((*clock, *p)).unwrap();
            }
            _ => panic!("handler registered on the wrong message"),
        }
        Fate::Keep
    }
}

impl DelayHost<State, Msg> for Behavior {}

fn system_with_timers(tx: Sender<(u64, u32)>) -> System<State, Msg, Behavior> {
    let mut system = System::new();
    init_delay_handler(
        &mut system,
        State::Timers(DelayScheduler::new()),
        SCHEDULE,
        Behavior::Schedule,
        PULSE,
        Behavior::Release,
    );
    system.create_actor(
        ActorBuilder::new(State::Log(tx, 0))
            .with_handler(PULSE, Behavior::Clock)
            .with_handler(PING, Behavior::Record)
            .build(),
    );
    system
}

fn schedule(ping: u32, now: u64, delay: u64) -> Msg {
    Msg::Schedule(Box::new(delay_from_now(Msg::Ping(ping), now, delay)))
}

#[test]
fn test_delay() {
    let (tx, rx) = channel();
    let mut system = system_with_timers(tx);

    let start: u64 = 0;
    let target: u64 = 1000;
    system.send(schedule(1, start, target));

    let mut now = start;
    loop {
        if let Ok((at, _)) = rx.try_recv() {
            assert!((at as i64 - (start + target) as i64).abs() < 10);
            break;
        } else {
            system.send(Msg::Pulse(now));
            system.handle_one();
            now += 1;

            assert!(now - start < 2000);
        }
    }
}

#[test]
fn ping_is_delivered_once_within_a_pulse_of_its_deadline() {
    let (tx, rx) = channel();
    let mut system = system_with_timers(tx);
    system.send(schedule(7, 0, 1000));
    let mut seen = Vec::new();
    for now in 0..1500u64 {
        system.send(Msg::Pulse(now));
        while system.handle_one() {}
        seen.extend(rx.try_iter());
    }
    assert_eq!(seen.len(), 1);
    let (at, ping) = seen[0];
    assert_eq!(ping, 7);
    assert!(at >= 1000 && at <= 1050);
}

#[test]
fn payloads_come_out_earliest_deadline_first() {
    let (tx, rx) = channel();
    let mut system = system_with_timers(tx);
    system.send(schedule(3, 0, 30));
    system.send(schedule(1, 0, 10));
    system.send(schedule(2, 0, 20));
    while system.handle_one() {}
    system.send(Msg::Pulse(100));
    while system.handle_one() {}
    let order: Vec<u32> = rx.try_iter().map(|(_, p)| p).collect();
    assert_eq!(order, vec![1, 2, 3]);
}

#[test]
fn release_into_appends_due_payloads_in_order() {
    let mut timers: DelayScheduler<Msg> = DelayScheduler::new();
    timers.schedule(DelayUntil(50, Msg::Ping(5)));
    timers.schedule(DelayUntil(20, Msg::Ping(2)));
    timers.schedule(DelayUntil(90, Msg::Ping(9)));
    let mut outbox: Mailbox = SystemInterface::new();
    outbox.send(Msg::Ping(0));
    timers.release_into(60, &mut outbox);

    let (tx, rx) = channel();
    let mut system = system_with_timers(tx);
    system.input_interface = outbox;
    while system.handle_one() {}
    let order: Vec<u32> = rx.try_iter().map(|(_, p)| p).collect();
    assert_eq!(order, vec![0, 2, 5]);

    let mut later: Mailbox = SystemInterface::new();
    timers.release_into(60, &mut later);
    timers.release_into(90, &mut later);
    system.input_interface = later;
    while system.handle_one() {}
    let order: Vec<u32> = rx.try_iter().map(|(_, p)| p).collect();
    assert_eq!(order, vec![9]);
}

#[test]
fn pulse_releases_only_what_is_due() {
    let mut timers: DelayScheduler<&str> = DelayScheduler::new();
    timers.schedule(DelayUntil(1000, "ping"));
    assert!(timers.pulse(0).is_empty());
    assert!(timers.pulse(999).is_empty());
    assert_eq!(timers.pulse(1000), vec!["ping"]);
    assert!(timers.pulse(1001).is_empty());
    assert!(timers.pulse(5000).is_empty());
}

#[test]
fn pulse_orders_by_deadline_then_by_scheduling_order() {
    let mut timers: DelayScheduler<u32> = DelayScheduler::new();
    assert_eq!(timers.schedule(DelayUntil(40, 4)), 0);
    assert_eq!(timers.schedule(DelayUntil(10, 1)), 1);
    assert_eq!(timers.schedule(DelayUntil(40, 5)), 2);
    assert_eq!(timers.schedule(DelayUntil(30, 3)), 3);
    assert_eq!(timers.schedule(DelayUntil(10, 2)), 4);
    assert_eq!(timers.schedule(DelayUntil(99, 9)), 5);
    assert_eq!(timers.pulse(40), vec![1, 2, 3, 4, 5]);
    assert_eq!(timers.pulse(100), vec![9]);
    assert!(timers.pulse(u64::MAX).is_empty());
}

#[test]
fn delay_from_now_adds_the_delay() {
    let request = delay_from_now("ping", 250, 1000);
    assert_eq!(request.0, 1250);
    assert_eq!(request.1, "ping");
    let edge = delay_from_now(1u8, u64::MAX - 5, 5);
    assert_eq!(edge.0, u64::MAX);
}
