use playground::channel::{Consumer, Producer};
use playground::errors::{nothrow, Demo, MyError};
use playground::fib::{fib, FibExpansion};
use playground::hash::{digest_hex, to_hex_lower};
use playground::mistake::{comma_locations, Mistake};

#[test]
fn comma_locations_are_byte_offsets() {
    assert_eq!(comma_locations("a,b,,c"), vec![1, 3, 4]);
    assert_eq!(comma_locations("é,ü"), vec![2]);
    assert_eq!(comma_locations("none"), Vec::<usize>::new());
}

#[test]
fn check_text_finds_no_mistake_without_commas() {
    assert!(Mistake::check_text("f", "no commas here".to_string()).is_none());
    let m = Mistake::check_text("f", "x,y".to_string()).unwrap();
    assert_eq!(m.locations, vec![1]);
    assert_eq!(m.path, "f");
}

#[test]
fn line_bounds_of_commas() {
    let m = Mistake::check_text("f", "first\nse,cond\nthird,".to_string()).unwrap();
    assert_eq!(m.locations, vec![8, 19]);
    assert_eq!(m.line_bounds(8), (6, 13));
    assert_eq!(m.line_bounds(19), (14, 20));
    let one = Mistake::check_text("g", ",".to_string()).unwrap();
    assert_eq!(one.line_bounds(0), (0, 1));
}

#[test]
fn report_points_at_each_comma() {
    let m = Mistake::check_text("Cargo.lock", "a\nb,c\n".to_string()).unwrap();
    let expected = "Cargo.lock: commas are forbidden:\n\n       2 | b,c\n            ^\n\n";
    assert_eq!(m.report(), expected);
    let two = Mistake::check_text("p", "é,,".to_string()).unwrap();
    let expected_two = "p: commas are forbidden:\n\n       1 | é,,\n             ^\n\n\
                        p: commas are forbidden:\n\n       1 | é,,\n              ^\n\n";
    assert_eq!(two.report(), expected_two);
}

#[test]
fn hex_and_digest() {
    assert_eq!(to_hex_lower(&[0x00, 0x0f, 0xa5, 0xff]), "000fa5ff");
    assert_eq!(
        digest_hex(b""),
        "a7ffc6f8bf1ed76651c14756a061d662f580ff4de43b49fa82d80a4b80f8434a"
    );
    assert_eq!(
        digest_hex(b"abc"),
        "3a985da74fe225b2045c172d6bd390bd855f086e3e9d525b46bfe24511431532"
    );
}

#[test]
fn producer_and_consumer_on_a_bounded_channel() {
    let (tx, rx) = crossbeam_channel::bounded(1);
    let mut producer = Producer::new(tx);
    let mut consumer = Consumer::new(rx);
    let mut step = |p: &mut Producer| {
        let (offered, next) = p.next();
        p.tx.try_send(offered).ok();
        (offered, next)
    };
    assert_eq!(step(&mut producer), (0, Some(1)));
    assert_eq!(consumer.next(), Some(0));
    assert_eq!(step(&mut producer), (1, Some(2)));
    assert_eq!(step(&mut producer), (2, Some(3)));
    assert_eq!(consumer.next(), Some(1));
    assert_eq!(consumer.next(), None);
    assert_eq!(producer.current, 3);
}

#[test]
fn errors_and_nothrow() {
    let e = MyError::new("boom");
    assert_eq!(e.description(), "boom");
    assert!(nothrow::<(), i32>(Err(3)));
    assert!(!nothrow::<i32, ()>(Ok(1)));
    let (result, caught) = Demo.throw_sth("throwing");
    assert!(result.is_ok());
    assert!(caught);
}

#[test]
fn fib_expansion_rule() {
    assert!(matches!(fib(0), FibExpansion::One));
    assert!(matches!(fib(1), FibExpansion::One));
    assert!(matches!(fib(2), FibExpansion::Sum(1, 0)));
    assert!(matches!(fib(10), FibExpansion::Sum(9, 8)));
}

#[test]
fn report_follows_the_listed_locations() {
    let single = Mistake { path: "p.txt".to_string(), text: "ab\nc,d".to_string(), locations: vec![4] };
    let block = "p.txt: commas are forbidden:\n\n       2 | c,d\n            ^\n\n";
    assert_eq!(single.report(), block);
    let twice = Mistake { path: "p.txt".to_string(), text: "ab\nc,d".to_string(), locations: vec![4, 4] };
    assert_eq!(twice.report(), format!("{}{}", block, block));
    let none = Mistake { path: "p.txt".to_string(), text: "ab\nc,d".to_string(), locations: vec![] };
    assert_eq!(none.report(), "");
}
