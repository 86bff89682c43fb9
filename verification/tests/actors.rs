use playground::actor::{
    format_range, parse_range, ActorCounter, ActorDispatcher, ActorReducer, CounterStep,
    DispatcherStep,
};
use playground::sorting::stable_order;
use playground::packet::{route, Delivery, Packet};

fn fields(p: &Packet) -> (String, String, String, String) {
    (p.from.clone(), p.to.clone(), p.command.clone(), p.data.clone())
}

fn s(x: &str) -> String {
    x.to_string()
}

#[test]
fn packet_new_keeps_fields() {
    let p = Packet::new("a", "b", "c", "d");
    assert_eq!(fields(&p), (s("a"), s("b"), s("c"), s("d")));
}

#[test]
fn stringify_writes_compact_json_with_sorted_keys() {
    let text = Packet::stringify("worker A", "reducer", "prime value", "17");
    assert_eq!(
        text,
        r#"{"command":"prime value","data":"17","from":"worker A","to":"reducer"}"#
    );
}

#[test]
fn stringify_escapes_strings() {
    let text = Packet::stringify("a\"b", "c\\d", "e\nf", "");
    let value: serde_json::Value = serde_json::from_str(&text).unwrap();
    assert_eq!(value["from"], "a\"b");
    assert_eq!(value["to"], "c\\d");
    assert_eq!(value["command"], "e\nf");
    assert_eq!(value["data"], "");
}

#[test]
fn route_delivers_only_own_packets() {
    let mine = Packet::new("x", "worker A", "done", "");
    match route("worker A", mine) {
        Delivery::Deliver(p) => assert_eq!(p.to, "worker A"),
        Delivery::PutBack(_) => panic!("should be delivered"),
    }
    let other = Packet::new("x", "worker B", "done", "");
    match route("worker A", other) {
        Delivery::Deliver(_) => panic!("should be put back"),
        Delivery::PutBack(p) => assert_eq!(p.to, "worker B"),
    }
}

#[test]
fn range_text_round_trip() {
    assert_eq!(format_range(0, 1000), "0,1000");
    assert_eq!(parse_range("0,1000"), Some((0, 1000)));
    assert_eq!(parse_range(&format_range(12345, u64::MAX)), Some((12345, u64::MAX)));
    assert_eq!(parse_range("1,2,3"), Some((1, 2)));
    assert_eq!(parse_range("1"), None);
    assert_eq!(parse_range("1,"), None);
    assert_eq!(parse_range("a,2"), None);
    assert_eq!(parse_range(",2"), None);
}

#[test]
fn dispatcher_hands_out_consecutive_ranges() {
    let mut d = ActorDispatcher::new("dispatcher", 0, 1000);
    d.save_worker_address("worker A");
    d.save_worker_address("worker B");
    let first = d.notify("worker A");
    assert_eq!(fields(&first), (s("dispatcher"), s("worker A"), s("count range"), s("0,1000")));
    let second = d.notify("worker B");
    assert_eq!(fields(&second), (s("dispatcher"), s("worker B"), s("count range"), s("1000,2000")));
    assert_eq!(d.range_start, 2000);
    let stops = d.finish();
    assert_eq!(stops.len(), 2);
    assert_eq!(fields(&stops[0]), (s("dispatcher"), s("worker A"), s("done"), s("")));
    assert_eq!(fields(&stops[1]), (s("dispatcher"), s("worker B"), s("done"), s("")));
}

#[test]
fn dispatcher_reads_commands() {
    let ready = Packet::new("worker A", "dispatcher", "worker ready", "worker A");
    assert!(matches!(ActorDispatcher::on_packet(&ready), DispatcherStep::WorkerReady));
    let done = Packet::new("reducer", "dispatcher", "done", "2,3");
    assert!(matches!(ActorDispatcher::on_packet(&done), DispatcherStep::Done));
    let other = Packet::new("x", "dispatcher", "hello", "");
    assert!(matches!(ActorDispatcher::on_packet(&other), DispatcherStep::Unknown));
}

#[test]
fn counter_reports_primes_then_ready() {
    let mut c = ActorCounter::new("worker A");
    c.save_dispatcher_address("dispatcher");
    c.save_reducer_address("reducer");
    assert_eq!(c.get_dispatcher_address(), "dispatcher");
    assert_eq!(c.get_reducer_address(), "reducer");
    let out = c.count(0, 12);
    assert!(out.finished);
    let got: Vec<_> = out.mails.iter().map(fields).collect();
    let mut expected: Vec<_> = ["2", "3", "5", "7", "11"]
        .iter()
        .map(|p| (s("worker A"), s("reducer"), s("prime value"), s(p)))
        .collect();
    expected.push((s("worker A"), s("dispatcher"), s("worker ready"), s("worker A")));
    assert_eq!(got, expected);
}

#[test]
fn counter_empty_range_only_asks_for_more() {
    let mut c = ActorCounter::new("w");
    c.save_dispatcher_address("d");
    c.save_reducer_address("r");
    let out = c.count(10, 5);
    assert!(out.finished);
    assert_eq!(out.mails.len(), 1);
    assert_eq!(fields(&out.mails[0]), (s("w"), s("d"), s("worker ready"), s("w")));
}

#[test]
fn counter_stops_where_the_prime_test_overflows() {
    let mut c = ActorCounter::new("w");
    c.save_dispatcher_address("d");
    c.save_reducer_address("r");
    // 18446744073709551557 = 2^64 - 59 is prime; the range stops just before it.
    let out = c.count(18_446_744_073_709_551_556, 18_446_744_073_709_551_558);
    assert!(!out.finished);
    assert!(out.mails.is_empty());
}

#[test]
fn counter_reads_commands() {
    let count = Packet::new("dispatcher", "w", "count range", "5,9");
    assert!(matches!(ActorCounter::on_packet(&count), CounterStep::Count(5, 9)));
    let bad = Packet::new("dispatcher", "w", "count range", "5");
    assert!(matches!(ActorCounter::on_packet(&bad), CounterStep::BadRange));
    let done = Packet::new("dispatcher", "w", "done", "");
    assert!(matches!(ActorCounter::on_packet(&done), CounterStep::Finish));
    let other = Packet::new("dispatcher", "w", "prime value", "3");
    assert!(matches!(ActorCounter::on_packet(&other), CounterStep::Unknown));
}

#[test]
fn counter_and_dispatcher_agree_on_ranges() {
    let mut d = ActorDispatcher::new("dispatcher", 7, 3);
    let p = d.notify("w");
    assert!(matches!(ActorCounter::on_packet(&p), CounterStep::Count(7, 10)));
}

#[test]
fn stable_order_sorts_by_key_keeping_ties_in_order() {
    assert_eq!(stable_order(&vec![5, 3, 5, 1, 3]), vec![3, 1, 4, 0, 2]);
    assert_eq!(stable_order(&vec![]), Vec::<usize>::new());
    assert_eq!(stable_order(&vec![2, 2, 2]), vec![0, 1, 2]);
}

#[test]
fn reducer_collects_and_reports_sorted() {
    let mut r = ActorReducer::new("reducer", 4);
    r.save_dispatcher_address("dispatcher");
    assert!(!r.is_complete());
    for value in ["11", "2", "7", "3"] {
        assert!(r.on_packet(&Packet::new("w", "reducer", "prime value", value)));
    }
    assert!(!r.on_packet(&Packet::new("w", "reducer", "hello", "5")));
    assert!(r.is_complete());
    assert_eq!(r.report(), Some(s("2,3,7,11")));
    let done = r.finish().unwrap();
    assert_eq!(fields(&done), (s("reducer"), s("dispatcher"), s("done"), s("2,3,7,11")));
}

#[test]
fn reducer_sort_is_stable_and_numeric() {
    let mut r = ActorReducer::new("reducer", 0);
    for value in ["10", "+7", "9", "07", "7"] {
        r.on_packet(&Packet::new("w", "reducer", "prime value", value));
    }
    assert_eq!(r.report(), Some(s("+7,07,7,9,10")));
}

#[test]
fn reducer_without_result_on_unreadable_values() {
    let mut r = ActorReducer::new("reducer", 2);
    r.save_dispatcher_address("dispatcher");
    r.on_packet(&Packet::new("w", "reducer", "prime value", "3"));
    r.on_packet(&Packet::new("w", "reducer", "prime value", "x"));
    assert_eq!(r.report(), None);
    assert!(r.finish().is_none());
}

#[test]
fn reducer_passes_single_value_through() {
    let mut r = ActorReducer::new("reducer", 1);
    assert_eq!(r.report(), Some(s("")));
    r.on_packet(&Packet::new("w", "reducer", "prime value", "not a number"));
    assert!(r.is_complete());
    assert_eq!(r.report(), Some(s("not a number")));
}
