use std::sync::mpsc::{channel, Receiver, Sender};

use actorcore::actors::{ActorBuilder, Fate, Handler, System, SystemInterface};

const TICK: u64 = 0;
const INT: u64 = 1;

enum Msg {
    Tick,
    Int(i32),
}

enum State {
    Counter(i32),
    Sink(Sender<i32>),
    Unit,
}

#[derive(Clone, Copy)]
enum Behavior {
    /// Increments the counter and sends the new value.
    Count,
    /// Forwards every integer to the sink.
    Forward,
    /// Reports its label to the sink on every message.
    Report(i32),
    /// Reports its label, then ends on the integer it names.
    ReportUntil(i32, i32),
    /// Reports its label and ends.
    ReportAndEnd(i32),
    /// Requests a reporting actor on each tick.
    Spawn(i32),
    /// Does nothing.
    Idle,
}

type Sys = System<State, Msg, Behavior>;
type Mailbox = SystemInterface<State, Msg, Behavior>;

impl Handler<State, Msg> for Behavior {
    fn tag(msg: &Msg) -> u64 {
        match msg {
            Msg::Tick => TICK,
            Msg::Int(_) => INT,
        }
    }

    fn handle(&self, state: &mut State, msg: &Msg, outbox: &mut Mailbox) -> Fate {
        match (self, state) {
            (Behavior::Count, State::Counter(i)) => {
                *i += 1;
                outbox.send(Msg::Int(*i));
                Fate::Keep
            }
            (Behavior::Forward, State::Sink(tx)) => {
                if let Msg::Int(i) = msg {
                    tx.send(*i).unwrap();
                }
                Fate::Keep
            }
            (Behavior::Report(label), State::Sink(tx)) => {
                tx.send(*label).unwrap();
                Fate::Keep
            }
            (Behavior::ReportUntil(label, last), State::Sink(tx)) => {
                tx.send(*label).unwrap();
                match msg {
                    Msg::Int(i) if i == last => Fate::End,
                    _ => Fate::Keep,
                }
            }
            (Behavior::ReportAndEnd(label), State::Sink(tx)) => {
                tx.send(*label).unwrap();
                Fate::End
            }
            (Behavior::Spawn(label), State::Sink(tx)) => {
                outbox.create_actor(
                    ActorBuilder::new(State::Sink(tx.clone()))
                        .with_handler(TICK, Behavior::Report(*label))
                        .build(),
                );
                Fate::Keep
            }
            (Behavior::Idle, _) => Fate::Keep,
            _ => panic!("handler registered on the wrong state"),
        }
    }
}

fn drain(rx: &Receiver<i32>) -> Vec<i32> {
    rx.try_iter().collect()
}

fn sink_actor(tx: &Sender<i32>, tag: u64, behavior: Behavior) -> actorcore::actors::ActorData<State, Behavior> {
    ActorBuilder::new(State::Sink(tx.clone())).with_handler(tag, behavior).build()
}

#[test]
fn hello_world() {
    let (tx, rx) = channel();

    let mut system: Sys = System::new();

    system.create_actor(ActorBuilder::new(State::Counter(0)).with_handler(TICK, Behavior::Count).build());

    system.create_actor(ActorBuilder::new(State::Sink(tx)).with_handler(INT, Behavior::Forward).build());

    system.send(Msg::Tick);
    system.send(Msg::Tick);
    system.send(Msg::Tick);
    system.send(Msg::Tick);

    while system.handle_one() {}

    assert_eq!(rx.recv().unwrap(), 1);
    assert_eq!(rx.recv().unwrap(), 2);
    assert_eq!(rx.recv().unwrap(), 3);
    assert_eq!(rx.recv().unwrap(), 4);
}

#[test]
fn empty_queue_dispatches_nothing() {
    let (tx, rx) = channel();
    let mut system: Sys = System::new();
    system.create_actor(sink_actor(&tx, TICK, Behavior::Report(7)));
    assert!(!system.handle_one());
    assert!(!system.handle_one());
    assert!(drain(&rx).is_empty());
}

#[test]
fn drain_takes_exactly_one_pass_per_message() {
    let (tx, rx) = channel();
    let mut system: Sys = System::new();
    system.create_actor(sink_actor(&tx, INT, Behavior::Forward));
    for i in 0..5 {
        system.send(Msg::Int(i));
    }
    let mut passes = 0;
    while system.handle_one() {
        passes += 1;
    }
    assert_eq!(passes, 5);
    assert!(!system.handle_one());
    assert_eq!(drain(&rx), vec![0, 1, 2, 3, 4]);
}

#[test]
fn message_without_subscribers_is_consumed() {
    let (tx, rx) = channel();
    let mut system: Sys = System::new();
    system.create_actor(sink_actor(&tx, INT, Behavior::Forward));
    system.send(Msg::Tick);
    assert!(system.handle_one());
    assert!(!system.handle_one());
    assert!(drain(&rx).is_empty());
}

#[test]
fn ended_actor_receives_nothing_more() {
    let (tx, rx) = channel();
    let mut system: Sys = System::new();
    system.create_actor(sink_actor(&tx, INT, Behavior::ReportUntil(9, 1)));
    system.send(Msg::Int(0));
    system.send(Msg::Int(1));
    system.send(Msg::Int(2));
    system.send(Msg::Int(3));
    while system.handle_one() {}
    assert_eq!(drain(&rx), vec![9, 9]);
}

#[test]
fn ended_actor_loses_handlers_of_every_tag() {
    let (tx, rx) = channel();
    let mut system: Sys = System::new();
    system.create_actor(
        ActorBuilder::new(State::Sink(tx.clone()))
            .with_handler(TICK, Behavior::Report(1))
            .with_handler(INT, Behavior::ReportAndEnd(2))
            .build(),
    );
    system.send(Msg::Tick);
    system.send(Msg::Int(0));
    system.send(Msg::Tick);
    system.send(Msg::Int(0));
    while system.handle_one() {}
    assert_eq!(drain(&rx), vec![1, 2]);
}

#[test]
fn actor_ending_twice_in_one_pass_is_removed_once() {
    let (tx, rx) = channel();
    let mut system: Sys = System::new();
    system.create_actor(
        ActorBuilder::new(State::Sink(tx.clone()))
            .with_handler(TICK, Behavior::ReportAndEnd(1))
            .with_handler(TICK, Behavior::ReportAndEnd(2))
            .build(),
    );
    system.create_actor(sink_actor(&tx, TICK, Behavior::Report(3)));
    system.send(Msg::Tick);
    system.send(Msg::Tick);
    while system.handle_one() {}
    assert_eq!(drain(&rx), vec![1, 2, 3, 3]);
}

#[test]
fn other_handlers_of_an_ending_actor_still_see_the_current_message() {
    let (tx, rx) = channel();
    let mut system: Sys = System::new();
    system.create_actor(
        ActorBuilder::new(State::Sink(tx.clone()))
            .with_handler(TICK, Behavior::ReportAndEnd(1))
            .with_handler(TICK, Behavior::Report(2))
            .build(),
    );
    system.send(Msg::Tick);
    system.send(Msg::Tick);
    while system.handle_one() {}
    assert_eq!(drain(&rx), vec![1, 2]);
}

#[test]
fn actor_created_during_a_pass_sees_only_later_messages() {
    let (tx, rx) = channel();
    let mut system: Sys = System::new();
    system.create_actor(sink_actor(&tx, TICK, Behavior::Spawn(5)));
    system.send(Msg::Tick);
    assert!(system.handle_one());
    assert!(drain(&rx).is_empty());
    system.send(Msg::Tick);
    assert!(system.handle_one());
    assert_eq!(drain(&rx), vec![5]);
}

#[test]
fn pending_actor_from_the_input_mailbox_joins_after_the_next_pass() {
    let (tx, rx) = channel();
    let mut system: Sys = System::new();
    system.input_interface.create_actor(sink_actor(&tx, TICK, Behavior::Report(4)));
    system.send(Msg::Tick);
    system.send(Msg::Tick);
    assert!(system.handle_one());
    assert!(drain(&rx).is_empty());
    assert!(system.handle_one());
    assert_eq!(drain(&rx), vec![4]);
}

#[test]
fn handlers_fire_in_registration_order() {
    let (tx, rx) = channel();
    let mut system: Sys = System::new();
    system.create_actor(sink_actor(&tx, TICK, Behavior::Report(1)));
    system.create_actor(sink_actor(&tx, INT, Behavior::Report(10)));
    system.create_actor(sink_actor(&tx, TICK, Behavior::Report(2)));
    system.create_actor(
        ActorBuilder::new(State::Sink(tx.clone()))
            .with_handler(INT, Behavior::Report(20))
            .with_handler(TICK, Behavior::Report(3))
            .build(),
    );
    system.send(Msg::Tick);
    system.send(Msg::Int(0));
    system.send(Msg::Tick);
    while system.handle_one() {}
    assert_eq!(drain(&rx), vec![1, 2, 3, 10, 20, 1, 2, 3]);
}

#[test]
fn order_survives_removal_of_an_earlier_actor() {
    let (tx, rx) = channel();
    let mut system: Sys = System::new();
    system.create_actor(sink_actor(&tx, TICK, Behavior::Report(1)));
    system.create_actor(sink_actor(&tx, TICK, Behavior::ReportAndEnd(2)));
    system.create_actor(sink_actor(&tx, TICK, Behavior::Report(3)));
    system.create_actor(sink_actor(&tx, TICK, Behavior::Report(4)));
    system.send(Msg::Tick);
    system.send(Msg::Tick);
    while system.handle_one() {}
    assert_eq!(drain(&rx), vec![1, 2, 3, 4, 1, 3, 4]);
}

#[test]
fn messages_sent_by_handlers_queue_behind_earlier_ones() {
    let (tx, rx) = channel();
    let mut system: Sys = System::new();
    system.create_actor(ActorBuilder::new(State::Counter(10)).with_handler(TICK, Behavior::Count).build());
    system.create_actor(sink_actor(&tx, INT, Behavior::Forward));
    system.send(Msg::Tick);
    system.send(Msg::Int(0));
    assert!(system.handle_one());
    assert!(system.handle_one());
    assert_eq!(drain(&rx), vec![0]);
    assert!(system.handle_one());
    assert_eq!(drain(&rx), vec![11]);
    assert!(!system.handle_one());
}

#[test]
fn mailbox_send_and_boxed_send_keep_order() {
    let mut outbox: Mailbox = SystemInterface::new();
    outbox.send(Msg::Int(1));
    outbox.send_boxed_ugly_needsfix(Box::new(Msg::Int(2)));
    let (tx, rx) = channel();
    let mut system: Sys = System::new();
    system.create_actor(sink_actor(&tx, INT, Behavior::Forward));
    system.input_interface = outbox;
    while system.handle_one() {}
    assert_eq!(drain(&rx), vec![1, 2]);
}

#[test]
fn idle_actor_keeps_running() {
    let mut system: Sys = System::new();
    system.create_actor(ActorBuilder::new(State::Unit).with_handler(TICK, Behavior::Idle).build());
    for _ in 0..3 {
        system.send(Msg::Tick);
    }
    let mut passes = 0;
    while system.handle_one() {
        passes += 1;
    }
    assert_eq!(passes, 3);
}
