use broker::batch::Batch;
use broker::broker::{Broker, Reply};
use broker::consumer::Consumer;
use broker::dispatch::ConsumerRegistry;
use broker::frame::{RequestType, SendPayload};
use broker::producer::{Connection, ExchangeOption};
use broker::queue::QState;
use broker::registry::{ConfigError, Exchange, RouteError};

fn publish(x_name: &str, key: &str, data: &str, x_type: char) -> SendPayload {
    SendPayload {
        x_name: x_name.to_string(),
        q_name: key.to_string(),
        data: data.to_string(),
        x_type,
    }
}

#[test]
fn fifo_order_per_queue() {
    let mut store = QState::new();
    store.push("q".to_string(), "first".to_string());
    store.push("q".to_string(), "second".to_string());
    assert_eq!(store.pop("q"), Some("first".to_string()));
    assert_eq!(store.pop("q"), Some("second".to_string()));
    assert_eq!(store.pop("q"), None);
}

#[test]
fn pop_of_untouched_queue_is_silent() {
    let mut store = QState::new();
    assert_eq!(store.pop("nobody"), None);
    store.create("made".to_string());
    assert_eq!(store.pop("made"), None);
}

#[test]
fn queues_are_independent() {
    let mut store = QState::new();
    store.push("a".to_string(), "pa".to_string());
    store.push("b".to_string(), "pb".to_string());
    assert_eq!(store.pop("b"), Some("pb".to_string()));
    assert_eq!(store.pop("a"), Some("pa".to_string()));
}

#[test]
fn declare_is_idempotent_and_mode_checked() {
    let mut reg = Exchange::new();
    assert!(reg.declare("orders".to_string(), ExchangeOption::Fanout).is_ok());
    assert!(reg.declare("orders".to_string(), ExchangeOption::Fanout).is_ok());
    assert_eq!(
        reg.declare("orders".to_string(), ExchangeOption::Direct),
        Err(ConfigError::ModeMismatch)
    );
}

#[test]
fn bind_requires_a_declared_exchange() {
    let mut reg = Exchange::new();
    assert_eq!(
        reg.bind(&"ghost".to_string(), "q1".to_string(), None),
        Err(RouteError::UnknownExchange)
    );
}

#[test]
fn route_unknown_exchange_is_an_error() {
    let reg = Exchange::new();
    assert_eq!(
        reg.route(&"ghost".to_string(), None),
        Err(RouteError::UnknownExchange)
    );
}

#[test]
fn fanout_routes_to_every_binding() {
    let mut reg = Exchange::new();
    reg.declare("orders".to_string(), ExchangeOption::Fanout).unwrap();
    reg.bind(&"orders".to_string(), "q1".to_string(), None).unwrap();
    reg.bind(&"orders".to_string(), "q2".to_string(), None).unwrap();
    let targets = reg.route(&"orders".to_string(), None).unwrap();
    assert_eq!(targets, vec!["q1".to_string(), "q2".to_string()]);
}

#[test]
fn direct_routes_by_exact_key() {
    let mut reg = Exchange::new();
    reg.declare("orders".to_string(), ExchangeOption::Direct).unwrap();
    reg.bind(&"orders".to_string(), "q1".to_string(), Some("east".to_string())).unwrap();
    reg.bind(&"orders".to_string(), "q2".to_string(), Some("west".to_string())).unwrap();
    let east = reg.route(&"orders".to_string(), Some(&"east".to_string())).unwrap();
    assert_eq!(east, vec!["q1".to_string()]);
    let north = reg.route(&"orders".to_string(), Some(&"north".to_string())).unwrap();
    assert!(north.is_empty());
    let unkeyed = reg.route(&"orders".to_string(), None).unwrap();
    assert!(unkeyed.is_empty());
}

#[test]
fn fanout_scenario_orders_hello() {
    // declare "orders" fanout, bind q1 and q2, publish "hello": both
    // queues yield it once and are then silent.
    let mut reg = Exchange::new();
    let mut store = QState::new();
    reg.declare("orders".to_string(), ExchangeOption::Fanout).unwrap();
    reg.bind(&"orders".to_string(), "q1".to_string(), None).unwrap();
    reg.bind(&"orders".to_string(), "q2".to_string(), None).unwrap();
    let mut batch = vec![publish("orders", "", "hello", 'f')];
    let dropped = reg.process_batch(&mut batch, &mut store);
    assert!(batch.is_empty());
    assert!(dropped.is_empty());
    assert_eq!(store.pop("q1"), Some("hello".to_string()));
    assert_eq!(store.pop("q2"), Some("hello".to_string()));
    assert_eq!(store.pop("q1"), None);
    assert_eq!(store.pop("q2"), None);
}

#[test]
fn direct_scenario_ship_east() {
    // declare "orders" direct, bind q1 under "east" and q2 under "west",
    // publish "ship" with key "east": only q1 receives it.
    let mut reg = Exchange::new();
    let mut store = QState::new();
    reg.declare("orders".to_string(), ExchangeOption::Direct).unwrap();
    reg.bind(&"orders".to_string(), "q1".to_string(), Some("east".to_string())).unwrap();
    reg.bind(&"orders".to_string(), "q2".to_string(), Some("west".to_string())).unwrap();
    let mut batch = vec![publish("orders", "east", "ship", 'd')];
    reg.process_batch(&mut batch, &mut store);
    assert_eq!(store.pop("q1"), Some("ship".to_string()));
    assert_eq!(store.pop("q2"), None);
}

#[test]
fn unroutable_payload_is_skipped_not_fatal() {
    let mut reg = Exchange::new();
    let mut store = QState::new();
    reg.declare("known".to_string(), ExchangeOption::Fanout).unwrap();
    reg.bind(&"known".to_string(), "q".to_string(), None).unwrap();
    let mut batch = vec![
        publish("ghost", "", "lost", 'f'),
        publish("known", "", "kept", 'f'),
    ];
    let dropped = reg.process_batch(&mut batch, &mut store);
    assert_eq!(dropped, vec![RouteError::UnknownExchange]);
    assert_eq!(store.pop("q"), Some("kept".to_string()));
}

#[test]
fn batch_refuses_offers_past_capacity() {
    let mut batch = Batch::new(5);
    for i in 0..5 {
        assert!(batch.offer(publish("x", "", &format!("p{}", i), 'f')));
    }
    assert!(!batch.offer(publish("x", "", "overflow", 'f')));
}

#[test]
fn batch_flush_commits_everything_at_once() {
    let mut reg = Exchange::new();
    let mut store = QState::new();
    reg.declare("x".to_string(), ExchangeOption::Fanout).unwrap();
    reg.bind(&"x".to_string(), "q".to_string(), None).unwrap();
    let mut batch = Batch::new(3);
    assert!(batch.offer(publish("x", "", "p1", 'f')));
    assert!(batch.offer(publish("x", "", "p2", 'f')));
    assert!(batch.offer(publish("x", "", "p3", 'f')));
    let dropped = batch.flush(&reg, &mut store);
    assert!(dropped.is_empty());
    // all three are visible, in order, the moment flush returns
    assert_eq!(store.pop("q"), Some("p1".to_string()));
    assert_eq!(store.pop("q"), Some("p2".to_string()));
    assert_eq!(store.pop("q"), Some("p3".to_string()));
    // and the batch is open for offers again
    assert!(batch.offer(publish("x", "", "p4", 'f')));
}

#[test]
fn competing_consumers_share_the_queue() {
    // two consumers on one queue, two payloads: the rotation serves each
    // one payload, and refuses the first consumer's out-of-turn poll.
    let mut consumers = ConsumerRegistry::new();
    let mut store = QState::new();
    consumers.register("alice".to_string(), "q".to_string());
    consumers.register("bob".to_string(), "q".to_string());
    store.push("q".to_string(), "p1".to_string());
    store.push("q".to_string(), "p2".to_string());
    let a = "alice".to_string();
    let b = "bob".to_string();
    let q = "q".to_string();
    assert_eq!(consumers.serve(&a, &q, &mut store), Some("p1".to_string()));
    assert_eq!(consumers.serve(&a, &q, &mut store), None);
    assert_eq!(consumers.serve(&b, &q, &mut store), Some("p2".to_string()));
}

#[test]
fn serving_an_unregistered_poller_is_silent() {
    let mut consumers = ConsumerRegistry::new();
    let mut store = QState::new();
    store.push("q".to_string(), "p".to_string());
    assert_eq!(
        consumers.serve(&"nobody".to_string(), &"q".to_string(), &mut store),
        None
    );
    // the payload stays queued
    consumers.register("alice".to_string(), "q".to_string());
    assert_eq!(
        consumers.serve(&"alice".to_string(), &"q".to_string(), &mut store),
        Some("p".to_string())
    );
}

#[test]
fn register_twice_keeps_one_entry() {
    let mut consumers = ConsumerRegistry::new();
    let mut store = QState::new();
    consumers.register("alice".to_string(), "q".to_string());
    consumers.register("alice".to_string(), "q".to_string());
    store.push("q".to_string(), "p1".to_string());
    store.push("q".to_string(), "p2".to_string());
    let a = "alice".to_string();
    let q = "q".to_string();
    // a group of one: alice is always the turn
    assert_eq!(consumers.serve(&a, &q, &mut store), Some("p1".to_string()));
    assert_eq!(consumers.serve(&a, &q, &mut store), Some("p2".to_string()));
}

#[test]
fn broker_dispatches_by_frame_kind() {
    let mut b = Broker::new(2);
    let admin = "admin".to_string();
    // a producer declaration: a connect frame with an empty queue field
    let mut producer = Connection::connect("localhost:8080");
    producer.declare_exchange("orders".to_string(), ExchangeOption::Fanout);
    match b.handle(&admin, producer.declare_frame()) {
        Reply::Declared(res) => assert!(res.is_ok()),
        _ => panic!("a declaration must be answered as one"),
    }
    b.exchanges.bind(&"orders".to_string(), "q".to_string(), None).unwrap();
    // a consumer connect registers the connection on its queue
    let alice = Consumer::new("alice", "q");
    match b.handle(&"alice".to_string(), alice.connect_frame()) {
        Reply::Connected => {},
        _ => panic!("a consumer connect must be answered as one"),
    }
    // an early poll is silent: nothing is committed yet
    match b.handle(&"alice".to_string(), alice.poll_frame()) {
        Reply::Data(d) => assert_eq!(d, None),
        _ => panic!("a poll must be answered with data or silence"),
    }
    // publishes buffer until the batch is full, then flush
    let p1 = RequestType::Producer(publish("orders", "", "m1", 'f'));
    let p2 = RequestType::Producer(publish("orders", "", "m2", 'f'));
    let p3 = RequestType::Producer(publish("orders", "", "m3", 'f'));
    assert!(matches!(b.handle(&admin, p1), Reply::Accepted(_)));
    assert!(matches!(b.handle(&admin, p2), Reply::Accepted(_)));
    // the third offer finds the batch full and forces the flush of m1, m2
    assert!(matches!(b.handle(&admin, p3), Reply::Accepted(_)));
    match b.handle(&"alice".to_string(), alice.poll_frame()) {
        Reply::Data(d) => assert_eq!(d, Some("m1".to_string())),
        _ => panic!("a poll must be answered with data or silence"),
    }
}

#[test]
fn producer_session_builds_wire_bytes() {
    let mut session = Connection::connect("localhost:8080");
    session.declare_exchange("orders".to_string(), ExchangeOption::Direct);
    let bytes = session.publish("ship", "east");
    let back = broker::codec::decode(&bytes).expect("a publish must decode");
    assert_eq!(
        back,
        RequestType::Producer(publish("orders", "east", "ship", 'd'))
    );
}

#[test]
fn consumer_session_builds_its_frames() {
    let c = Consumer::new("alice", "q1");
    let connect = c.connect_frame();
    let poll = c.poll_frame();
    // both frames survive the wire
    let connect_back = broker::codec::decode(&broker::codec::encode(&connect)).unwrap();
    let poll_back = broker::codec::decode(&broker::codec::encode(&poll)).unwrap();
    assert_eq!(connect_back, connect);
    assert_eq!(poll_back, poll);
    match poll {
        RequestType::Consumer(p) => assert_eq!(p.q_name, "q1"),
        _ => panic!("a poll frame must be a receive frame"),
    }
}
